use lib::display::{
    amd_hpd_status_reg, amd_otg_timing_writes, aux_len, aux_request, bar64_decode, classify_gpu, dcn_gen_from_did,
    dp_cr_done, dp_eq_done, dp_link_params, intel_bar_pages, intel_ddi_words, intel_gen_from_did, intel_hpd_decode,
    intel_pipe_timing_writes, pci_byte, pci_config_addr, pci_half, t_1080p60, test_pattern_color, DcnGen, GpuKind,
    IntelGen, IntelOutMode, RegWrite, AMD_VENDOR, INTEL_VENDOR,
};

#[test]
fn amd_generations() {
    assert_eq!(dcn_gen_from_did(0x7310), Some(DcnGen::Dcn2));
    assert_eq!(dcn_gen_from_did(0x731F), Some(DcnGen::Dcn2));
    assert_eq!(dcn_gen_from_did(0x1636), Some(DcnGen::Dcn2));
    assert_eq!(dcn_gen_from_did(0x73BF), Some(DcnGen::Dcn3));
    assert_eq!(dcn_gen_from_did(0x1905), Some(DcnGen::Dcn3));
    assert_eq!(dcn_gen_from_did(0x7320), None);
    assert_eq!(dcn_gen_from_did(0x0000), None);
}

#[test]
fn intel_generations() {
    assert_eq!(intel_gen_from_did(0x1912), Some(IntelGen::Gen9));
    assert_eq!(intel_gen_from_did(0x3E92), Some(IntelGen::Gen9));
    assert_eq!(intel_gen_from_did(0x8A52), Some(IntelGen::Gen11));
    assert_eq!(intel_gen_from_did(0x9A49), Some(IntelGen::Gen12));
    assert_eq!(intel_gen_from_did(0xA7A0), None);
}

#[test]
fn classify_gpus() {
    assert_eq!(classify_gpu(AMD_VENDOR, 0x73BF, 0x03), Some(GpuKind::Amd(DcnGen::Dcn3)));
    assert_eq!(classify_gpu(INTEL_VENDOR, 0x9A49, 0x03), Some(GpuKind::Intel(IntelGen::Gen12)));
    assert_eq!(classify_gpu(AMD_VENDOR, 0x73BF, 0x02), None);
    assert_eq!(classify_gpu(INTEL_VENDOR, 0x73BF, 0x03), None);
    assert_eq!(classify_gpu(0x10DE, 0x1234, 0x03), None);
}

#[test]
fn pci_config_words() {
    assert_eq!(pci_config_addr(0, 2, 0, 0x10), 0x8000_1010);
    assert_eq!(pci_config_addr(1, 0, 3, 0x13), 0x8001_0310);
    assert_eq!(pci_byte(0x1122_3344, 0), 0x44);
    assert_eq!(pci_byte(0x1122_3344, 0x0B), 0x11);
    assert_eq!(pci_half(0x1122_3344, 0), 0x3344);
    assert_eq!(pci_half(0x1122_3344, 2), 0x1122);
}

#[test]
fn bar_decoding() {
    assert_eq!(bar64_decode(0xE000_000C, 0x1), Some(0x1_E000_0000));
    assert_eq!(bar64_decode(0xF000_0000, 0x1), Some(0xF000_0000));
    assert_eq!(bar64_decode(0xE001, 0), None);
    assert_eq!(bar64_decode(0x4, 0), None);
}

#[test]
fn test_pattern_bars() {
    assert_eq!(test_pattern_color(0, 800), 0x000000);
    assert_eq!(test_pattern_color(100, 800), 0xFF0000);
    assert_eq!(test_pattern_color(450, 800), 0x00FF00);
    assert_eq!(test_pattern_color(799, 800), 0xFFFFFF);
}

#[test]
fn intel_pipe_timing() {
    let t = t_1080p60();
    assert_eq!(t.h_total, 2200);
    assert_eq!(t.pixel_khz, 148_500);
    let w = intel_pipe_timing_writes(&t);
    assert_eq!(w.len(), 7);
    assert_eq!(w[0], RegWrite { off: 0x60000, val: (2199 << 16) | 1919 });
    assert_eq!(w[2], RegWrite { off: 0x60008, val: (2051 << 16) | 2007 });
    assert_eq!(w[6], RegWrite { off: 0x6001C, val: (1919 << 16) | 1079 });
}

#[test]
fn amd_otg_timing() {
    let t = t_1080p60();
    let w = amd_otg_timing_writes(0x1B00, &t);
    assert_eq!(w.len(), 10);
    assert_eq!(w[0], RegWrite { off: 0x1B00, val: 2199 });
    assert_eq!(w[1], RegWrite { off: 0x1B04, val: (2200 << 16) | 1920 });
    assert_eq!(w[3], RegWrite { off: 0x1B0C, val: 0 });
    assert_eq!(w[4], RegWrite { off: 0x1B18, val: 1124 });
    assert_eq!(w[9], RegWrite { off: 0x1B34, val: 0 });
}

#[test]
fn ddi_and_aux() {
    assert_eq!(intel_ddi_words(IntelOutMode::Dp), (0x8000_0006, 0x8200_0000));
    assert_eq!(intel_ddi_words(IntelOutMode::Hdmi), (0x8000_0206, 0x8000_0000));
    assert_eq!(aux_len(3), 3);
    assert_eq!(aux_len(40), 16);
    assert_eq!(aux_request(0x102, true, 1), 0x8001_0200);
    assert_eq!(aux_request(0x0, false, 16), 0x9000_000F);
}

#[test]
fn dp_training() {
    assert_eq!(dp_link_params(0x1E, 0x84), (0x14, 4));
    assert_eq!(dp_link_params(0x0A, 0x02), (0x0A, 2));
    assert!(dp_cr_done(0x11, 2));
    assert!(!dp_cr_done(0x01, 2));
    assert!(dp_cr_done(0x01, 1));
    assert!(dp_eq_done(0x77, 1, 2));
    assert!(!dp_eq_done(0x77, 0, 2));
    assert!(!dp_eq_done(0x07, 1, 4));
}

#[test]
fn hotplug_and_bars() {
    assert_eq!(intel_hpd_decode(0x300), (true, true));
    assert_eq!(intel_hpd_decode(0x100), (true, false));
    assert_eq!(amd_hpd_status_reg(0), 0x12A04);
    assert_eq!(amd_hpd_status_reg(2), 0x12A44);
    assert_eq!(intel_bar_pages(IntelGen::Gen9), 1024);
    assert_eq!(intel_bar_pages(IntelGen::Gen12), 512);
}
