//! Allocation-free formatting of numbers into caller-provided buffers, and a
//! fixed-capacity string builder.
use vstd::prelude::*;
use vstd::string::StringSliceAdditionalSpecFns;
use vstd::utf8::{valid_utf8, encode_utf8, is_ascii_chars};

verus! {

/// Size of the scratch buffer the number formatters write into.
pub const NUM_BUF_SIZE: usize = 24;

// ── Trusted calls into core ──────────────────────────────────────────────────

/// `core::str::from_utf8`, with the error case turned into `None`: std
/// documents that it succeeds exactly when the bytes are valid UTF-8, and
/// that the resulting string slice consists of those bytes.
#[verifier::external_body]
pub(crate) fn utf8_str<'a>(b: &'a [u8]) -> (r: Option<&'a str>)
    ensures
        r.is_some() == valid_utf8(b@),
        r.is_some() ==> r.unwrap().spec_bytes() == b@,
{
    core::str::from_utf8(b).ok()
}

/// `char::encode_utf8`: std documents that it writes the UTF-8 encoding of
/// the character into the buffer and returns the string slice holding
/// exactly that character, which takes at most four bytes.
#[verifier::external_body]
pub(crate) fn encode_char<'a>(c: char, dst: &'a mut [u8; 4]) -> (r: &'a str)
    ensures
        r@ == seq![c],
        r.spec_bytes().len() <= 4,
{
    c.encode_utf8(dst)
}

// ── Specifications ───────────────────────────────────────────────────────────

/// Decimal digits of `v`, most significant first, without leading zeros.
pub open spec fn dec_digits(v: nat) -> Seq<u8>
    decreases v,
{
    if v < 10 {
        seq![(48 + v) as u8]
    } else {
        dec_digits(v / 10).push((48 + v % 10) as u8)
    }
}

/// ASCII hexadecimal digit (lower case) of `d < 16`.
pub open spec fn hex_char(d: int) -> u8 {
    if d < 10 {
        (48 + d) as u8
    } else {
        (87 + d) as u8
    }
}

/// Hexadecimal digits of `v`, most significant first, without leading zeros.
pub open spec fn hex_digits(v: nat) -> Seq<u8>
    decreases v,
{
    if v < 16 {
        seq![hex_char(v as int)]
    } else {
        hex_digits(v / 16).push(hex_char((v % 16) as int))
    }
}

/// `"0x"` followed by the hexadecimal digits of `v`.
pub open spec fn hex_text(v: nat) -> Seq<u8> {
    seq![48u8, 120u8] + hex_digits(v)
}

/// `"0x"` followed by the `pad` lowest nibbles of `v`, most significant
/// first.
pub open spec fn hex_pad_text(v: u64, pad: int) -> Seq<u8> {
    seq![48u8, 120u8] + Seq::new(pad as nat, |k: int| hex_char(((v >> ((pad - 1 - k) * 4) as u64) & 0xf) as int))
}

/// Decimal text of a signed number.
pub open spec fn signed_text(v: int) -> Seq<u8> {
    if v >= 0 {
        dec_digits(v as nat)
    } else {
        seq![45u8] + dec_digits((-v) as nat)
    }
}

pub open spec fn ascii_bytes(b: Seq<u8>) -> bool {
    forall|i: int| 0 <= i < b.len() ==> #[trigger] b[i] < 128
}

/// Powers of ten.
pub open spec fn pow10(k: nat) -> nat
    decreases k,
{
    if k == 0 {
        1
    } else {
        10 * pow10((k - 1) as nat)
    }
}

// ── Lemmas ───────────────────────────────────────────────────────────────────

/// ASCII bytes are valid UTF-8.
pub proof fn lemma_ascii_valid_utf8(b: Seq<u8>)
    requires
        ascii_bytes(b),
    ensures
        valid_utf8(b),
{
    let chars = Seq::new(b.len(), |i: int| b[i] as char);
    assert(is_ascii_chars(chars)) by {
        assert forall|i: int| 0 <= i < chars.len() implies '\0' <= #[trigger] chars[i] <= '\u{7f}' by {
            assert(b[i] < 128);
        }
    }
    vstd::utf8::is_ascii_chars_encode_utf8(chars);
    assert(encode_utf8(chars) =~= b) by {
        assert forall|i: int| 0 <= i < b.len() implies encode_utf8(chars)[i] == b[i] by {
            assert(chars[i] as u8 == encode_utf8(chars)[i]);
            assert(chars[i] == b[i] as char);
            assert((b[i] as char) as u8 == b[i]) by {
                let x = b[i];
                assert(x < 128);
            }
        }
    }
    vstd::utf8::encode_utf8_valid_utf8(chars);
}

pub proof fn lemma_dec_digits_ascii(v: nat)
    ensures
        ascii_bytes(dec_digits(v)),
        dec_digits(v).len() >= 1,
    decreases v,
{
    if v >= 10 {
        lemma_dec_digits_ascii(v / 10);
    }
}

proof fn lemma_hex_digits_ascii(v: nat)
    ensures
        ascii_bytes(hex_digits(v)),
        1 <= hex_digits(v).len(),
    decreases v,
{
    if v >= 16 {
        lemma_hex_digits_ascii(v / 16);
    }
}

proof fn lemma_dec_len(v: nat, k: nat)
    requires
        v < pow10(k),
        k >= 1,
    ensures
        dec_digits(v).len() <= k,
    decreases k,
{
    if v >= 10 {
        assert(k >= 2) by {
            if k == 1 {
                assert(pow10(1) == 10) by {
                    reveal_with_fuel(pow10, 2);
                }
            }
        }
        assert(v / 10 < pow10((k - 1) as nat));
        lemma_dec_len(v / 10, (k - 1) as nat);
    }
}

pub proof fn lemma_u64_dec_len(v: u64)
    ensures
        dec_digits(v as nat).len() <= 20,
{
    assert(pow10(20) == 100000000000000000000) by {
        reveal_with_fuel(pow10, 21);
    }
    lemma_dec_len(v as nat, 20);
}

proof fn lemma_hex_len(v: u64)
    ensures
        hex_digits(v as nat).len() <= 16,
{
    vstd::arithmetic::power2::lemma2_to64_rest();
    assert(4 * 16nat == 64);
    lemma_hex_len_bound(v as nat, 16);
}

proof fn lemma_hex_len_bound(v: nat, k: nat)
    requires
        v < vstd::arithmetic::power2::pow2(4 * k),
        k >= 1,
    ensures
        hex_digits(v).len() <= k,
    decreases k,
{
    vstd::arithmetic::power2::lemma_pow2_adds(4, 4 * (k - 1) as nat);
    vstd::arithmetic::power2::lemma2_to64();
    if v >= 16 {
        if k == 1 {
            assert(false);
        }
        assert(4 * k == 4 + 4 * (k - 1) as nat);
        lemma_hex_len_bound(v / 16, (k - 1) as nat);
    }
}

// ── Formatters ───────────────────────────────────────────────────────────────

/// A zeroed scratch buffer.
pub fn num_buf() -> (r: [u8; NUM_BUF_SIZE])
    ensures
        forall|i: int| 0 <= i < NUM_BUF_SIZE ==> #[trigger] r@[i] == 0,
{
    [0u8; NUM_BUF_SIZE]
}

/// Append the bytes `s` to `out`.
pub fn put_bytes(out: &mut Vec<u8>, s: &[u8])
    ensures
        final(out)@ == old(out)@ + s@,
{
    let mut i: usize = 0;
    while i < s.len()
        invariant
            i <= s@.len(),
            out@ == old(out)@ + s@.subrange(0, i as int),
        decreases s@.len() - i,
    {
        out.push(s[i]);
        i = i + 1;
        assert(out@ =~= old(out)@ + s@.subrange(0, i as int));
    }
    assert(s@.subrange(0, i as int) =~= s@);
}

/// Append the UTF-8 bytes of `s` to `out`.
pub fn put_str(out: &mut Vec<u8>, s: &str)
    ensures
        final(out)@ == old(out)@ + s.spec_bytes(),
{
    put_bytes(out, s.as_bytes());
}

/// Append the decimal digits of `v` to `out`.
pub fn put_dec(out: &mut Vec<u8>, v: u64)
    ensures
        final(out)@ == old(out)@ + dec_digits(v as nat),
{
    let mut buf = num_buf();
    let t = u64_to_str(v, &mut buf);
    put_str(out, t);
}

/// Decimal text of `v`, written into the tail of `buf` (into its first byte
/// for 0).
pub fn u64_to_str<'a>(v: u64, buf: &'a mut [u8; NUM_BUF_SIZE]) -> (r: &'a str)
    ensures
        r.spec_bytes() == dec_digits(v as nat),
        v == 0 ==> final(buf)@ == old(buf)@.update(0, 48u8),
        v > 0 ==> final(buf)@ == old(buf)@.subrange(0, NUM_BUF_SIZE - dec_digits(v as nat).len()) + dec_digits(
            v as nat,
        ),
{
    if v == 0 {
        buf[0] = 48;
        proof {
            assert(buf@.subrange(0, 1) =~= dec_digits(0));
            lemma_ascii_valid_utf8(dec_digits(0));
        }
        let s: &'a [u8] = &buf[0..1];
        return match utf8_str(s) {
            Some(t) => t,
            None => "?",
        };
    }
    let ghost orig = v as nat;
    proof {
        lemma_u64_dec_len(v);
    }
    let mut w = v;
    let mut i: usize = NUM_BUF_SIZE;
    while w > 0 && i > 0
        invariant
            0 <= i <= NUM_BUF_SIZE,
            buf@.len() == NUM_BUF_SIZE,
            orig == v as nat,
            dec_digits(orig).len() <= 20,
            w > 0 ==> dec_digits(orig) == dec_digits(w as nat) + buf@.subrange(i as int, NUM_BUF_SIZE as int),
            w > 0 ==> dec_digits(w as nat).len() + (NUM_BUF_SIZE - i) == dec_digits(orig).len(),
            w == 0 ==> dec_digits(orig) == buf@.subrange(i as int, NUM_BUF_SIZE as int),
            buf@.subrange(0, i as int) == old(buf)@.subrange(0, i as int),
        decreases w,
    {
        let ghost wn = w as nat;
        let ghost old_buf = buf@;
        i = i - 1;
        let d = (w % 10) as u8;
        buf[i] = 48 + d;
        w = w / 10;
        proof {
            assert(buf@.subrange(0, i as int) =~= old_buf.subrange(0, i as int));
            assert(buf@.subrange(i as int, NUM_BUF_SIZE as int) =~= seq![(48 + wn % 10) as u8] + old_buf.subrange(
                i + 1,
                NUM_BUF_SIZE as int,
            ));
            if wn >= 10 {
                assert(dec_digits(wn) == dec_digits(wn / 10).push((48 + wn % 10) as u8));
                assert(dec_digits(wn) + old_buf.subrange(i + 1, NUM_BUF_SIZE as int) =~= dec_digits(wn / 10) + buf@.subrange(
                    i as int,
                    NUM_BUF_SIZE as int,
                ));
            } else {
                assert(dec_digits(wn) + old_buf.subrange(i + 1, NUM_BUF_SIZE as int) =~= buf@.subrange(
                    i as int,
                    NUM_BUF_SIZE as int,
                ));
            }
            assert(old_buf.subrange(0, i as int) =~= old(buf)@.subrange(0, i as int));
        }
    }
    proof {
        lemma_dec_digits_ascii(orig);
        lemma_ascii_valid_utf8(dec_digits(orig));
        assert(w == 0);
        assert(i == NUM_BUF_SIZE - dec_digits(orig).len());
        assert(buf@ =~= buf@.subrange(0, i as int) + buf@.subrange(i as int, NUM_BUF_SIZE as int));
    }
    let s: &'a [u8] = &buf[i..NUM_BUF_SIZE];
    match utf8_str(s) {
        Some(t) => t,
        None => "?",
    }
}

/// Magnitude of a signed number.
fn magnitude(v: i64) -> (r: u64)
    ensures
        r == if v >= 0 { v as int } else { -(v as int) },
{
    if v >= 0 {
        v as u64
    } else if v == i64::MIN {
        0x8000_0000_0000_0000u64
    } else {
        (-v) as u64
    }
}

/// Decimal text of `v`, with a leading minus sign when negative, written
/// into the tail of `buf` (into its first byte for 0).
pub fn i64_to_str<'a>(v: i64, buf: &'a mut [u8; NUM_BUF_SIZE]) -> (r: &'a str)
    ensures
        r.spec_bytes() == signed_text(v as int),
        v == 0 ==> final(buf)@ == old(buf)@.update(0, 48u8),
        v != 0 ==> final(buf)@ == old(buf)@.subrange(0, NUM_BUF_SIZE - signed_text(v as int).len())
            + signed_text(v as int),
{
    if v >= 0 {
        return u64_to_str(v as u64, buf);
    }
    let mut tmp = num_buf();
    let m = magnitude(v);
    let s = u64_to_str(m, &mut tmp);
    let b = s.as_bytes();
    let slen = b.len();
    proof {
        lemma_u64_dec_len(m);
    }
    let start = NUM_BUF_SIZE - slen - 1;
    buf[start] = 45;
    let mut k: usize = 0;
    while k < slen
        invariant
            0 <= k <= slen,
            slen == b@.len(),
            b@ == dec_digits(m as nat),
            start + 1 + slen == NUM_BUF_SIZE,
            buf@.len() == NUM_BUF_SIZE,
            buf@[start as int] == 45u8,
            buf@.subrange(0, start as int) == old(buf)@.subrange(0, start as int),
            forall|j: int| 0 <= j < k ==> buf@[start + 1 + j] == b@[j],
        decreases slen - k,
    {
        let x = b[k];
        let ghost ob = buf@;
        buf[start + 1 + k] = x;
        proof {
            assert(buf@.subrange(0, start as int) =~= ob.subrange(0, start as int));
        }
        k = k + 1;
    }
    proof {
        let t = signed_text(v as int);
        assert(t =~= seq![45u8] + dec_digits(m as nat));
        assert(buf@.subrange(start as int, NUM_BUF_SIZE as int) =~= t);
        assert(buf@ =~= old(buf)@.subrange(0, start as int) + t);
        lemma_dec_digits_ascii(m as nat);
        assert(ascii_bytes(t));
        lemma_ascii_valid_utf8(t);
    }
    let out: &'a [u8] = &buf[start..NUM_BUF_SIZE];
    match utf8_str(out) {
        Some(t) => t,
        None => "?",
    }
}

pub fn u32_to_str<'a>(v: u32, buf: &'a mut [u8; NUM_BUF_SIZE]) -> (r: &'a str)
    ensures
        r.spec_bytes() == dec_digits(v as nat),
        v == 0 ==> final(buf)@ == old(buf)@.update(0, 48u8),
        v > 0 ==> final(buf)@ == old(buf)@.subrange(0, NUM_BUF_SIZE - dec_digits(v as nat).len()) + dec_digits(
            v as nat,
        ),
{
    u64_to_str(v as u64, buf)
}

pub fn usize_to_str<'a>(v: usize, buf: &'a mut [u8; NUM_BUF_SIZE]) -> (r: &'a str)
    ensures
        r.spec_bytes() == dec_digits(v as nat),
        v == 0 ==> final(buf)@ == old(buf)@.update(0, 48u8),
        v > 0 ==> final(buf)@ == old(buf)@.subrange(0, NUM_BUF_SIZE - dec_digits(v as nat).len()) + dec_digits(
            v as nat,
        ),
{
    u64_to_str(v as u64, buf)
}

/// Lower-case hexadecimal digit of `d < 16`.
fn hex_digit(d: u64) -> (r: u8)
    requires
        d < 16,
    ensures
        r == hex_char(d as int),
{
    if d < 10 {
        48 + d as u8
    } else {
        87 + d as u8
    }
}

proof fn lemma_nibble(n: u64)
    ensures
        n & 0xf == n % 16,
        n >> 4 == n / 16,
{
    assert(n & 0xf == n % 16) by (bit_vector);
    assert(n >> 4 == n / 16) by (bit_vector);
}

proof fn lemma_nibble_lt(x: u64, sh: u64)
    ensures
        (x >> sh) & 0xf < 16,
{
    assert((x >> sh) & 0xf < 16) by (bit_vector);
}

/// `"0x"` and the hexadecimal digits of `v`, written at the start of `buf`.
pub fn u64_to_hex<'a>(v: u64, buf: &'a mut [u8; NUM_BUF_SIZE]) -> (r: &'a str)
    ensures
        r.spec_bytes() == hex_text(v as nat),
        final(buf)@.subrange(0, hex_text(v as nat).len() as int) == hex_text(v as nat),
{
    buf[0] = 48;
    buf[1] = 120;
    if v == 0 {
        buf[2] = 48;
        proof {
            assert(buf@.subrange(0, 3) =~= hex_text(0));
            lemma_ascii_valid_utf8(hex_text(0));
        }
        let s: &'a [u8] = &buf[0..3];
        return match utf8_str(s) {
            Some(t) => t,
            None => "?",
        };
    }
    let ghost orig = v as nat;
    proof {
        lemma_hex_len(v);
    }
    let mut i: usize = NUM_BUF_SIZE;
    let mut n = v;
    while n > 0 && i > 2
        invariant
            2 <= i <= NUM_BUF_SIZE,
            buf@.len() == NUM_BUF_SIZE,
            buf@[0] == 48u8 && buf@[1] == 120u8,
            orig == v as nat,
            hex_digits(orig).len() <= 16,
            n > 0 ==> hex_digits(orig) == hex_digits(n as nat) + buf@.subrange(i as int, NUM_BUF_SIZE as int),
            n > 0 ==> hex_digits(n as nat).len() + (NUM_BUF_SIZE - i) == hex_digits(orig).len(),
            n == 0 ==> hex_digits(orig) == buf@.subrange(i as int, NUM_BUF_SIZE as int),
        decreases n,
    {
        let ghost nn = n as nat;
        let ghost old_buf = buf@;
        proof {
            lemma_nibble(n);
        }
        i = i - 1;
        buf[i] = hex_digit(n & 0xF);
        n = n >> 4;
        proof {
            assert(buf@.subrange(i as int, NUM_BUF_SIZE as int) =~= seq![hex_char((nn % 16) as int)] + old_buf.subrange(
                i + 1,
                NUM_BUF_SIZE as int,
            ));
            if nn >= 16 {
                assert(hex_digits(nn) + old_buf.subrange(i + 1, NUM_BUF_SIZE as int) =~= hex_digits(nn / 16) + buf@.subrange(
                    i as int,
                    NUM_BUF_SIZE as int,
                ));
            } else {
                assert(hex_digits(nn) + old_buf.subrange(i + 1, NUM_BUF_SIZE as int) =~= buf@.subrange(
                    i as int,
                    NUM_BUF_SIZE as int,
                ));
            }
        }
    }
    let ghost digits = buf@.subrange(i as int, NUM_BUF_SIZE as int);
    proof {
        assert(n == 0);
        assert(digits == hex_digits(orig));
    }
    let dlen = NUM_BUF_SIZE - i;
    let mut k: usize = 0;
    while k < dlen
        invariant
            0 <= k <= dlen,
            dlen + i == NUM_BUF_SIZE,
            i >= 2,
            buf@.len() == NUM_BUF_SIZE,
            buf@[0] == 48u8 && buf@[1] == 120u8,
            forall|j: int| 0 <= j < k ==> buf@[2 + j] == digits[j],
            forall|j: int| i + k <= j < NUM_BUF_SIZE ==> buf@[j] == digits[j - i],
        decreases dlen - k,
    {
        let x = buf[i + k];
        buf[2 + k] = x;
        k = k + 1;
    }
    proof {
        assert(buf@.subrange(0, 2 + dlen) =~= hex_text(orig));
        lemma_hex_digits_ascii(orig);
        lemma_ascii_valid_utf8(hex_text(orig));
    }
    let s: &'a [u8] = &buf[0..2 + dlen];
    match utf8_str(s) {
        Some(t) => t,
        None => "?",
    }
}

/// `"0x"` and exactly `pad` hexadecimal digits of `v` (its `pad` lowest
/// nibbles, leading zeros kept), written at the start of `buf`.
pub fn u64_to_hex_pad<'a>(v: u64, pad: usize, buf: &'a mut [u8; NUM_BUF_SIZE]) -> (r: &'a str)
    requires
        pad <= 16,
    ensures
        r.spec_bytes() == hex_pad_text(v, pad as int),
        final(buf)@.subrange(0, 2 + pad) == hex_pad_text(v, pad as int),
{
    let pad = if pad < NUM_BUF_SIZE - 2 { pad } else { NUM_BUF_SIZE - 2 };
    buf[0] = 48;
    buf[1] = 120;
    let ghost t = hex_pad_text(v, pad as int);
    let mut j: usize = 0;
    while j < pad
        invariant
            0 <= j <= pad,
            pad <= 16,
            buf@.len() == NUM_BUF_SIZE,
            buf@[0] == 48u8 && buf@[1] == 120u8,
            t == hex_pad_text(v, pad as int),
            forall|k: int| pad - j <= k < pad ==> #[trigger] buf@[2 + k] == t[2 + k],
        decreases pad - j,
    {
        let sh = (j * 4) as u64;
        let nib = (v >> sh) & 0xF;
        proof {
            lemma_nibble_lt(v, sh);
        }
        buf[2 + pad - 1 - j] = hex_digit(nib);
        proof {
            let k = pad - 1 - j;
            assert(t[2 + k] == hex_char(((v >> ((pad - 1 - k) * 4) as u64) & 0xf) as int));
        }
        j = j + 1;
    }
    proof {
        assert(buf@.subrange(0, 2 + pad) =~= t) by {
            assert forall|k: int| 0 <= k < 2 + pad implies buf@.subrange(0, 2 + pad)[k] == t[k] by {
                if k >= 2 {
                    assert(buf@[2 + (k - 2)] == t[2 + (k - 2)]);
                }
            }
        }
        assert forall|k: int| 0 <= k < t.len() implies #[trigger] t[k] < 128 by {
            if k >= 2 {
                lemma_nibble_lt(v, ((pad - 1 - (k - 2)) * 4) as u64);
            }
        }
        lemma_ascii_valid_utf8(t);
    }
    let s: &'a [u8] = &buf[0..2 + pad];
    match utf8_str(s) {
        Some(x) => x,
        None => "?",
    }
}

pub fn bool_to_str(v: bool) -> (r: &'static str)
    ensures
        r@ == if v { "true"@ } else { "false"@ },
{
    if v {
        "true"
    } else {
        "false"
    }
}

// ── FmtBuf ───────────────────────────────────────────────────────────────────

/// String builder over an inline buffer of `N` bytes; text that does not fit
/// is cut off.
pub struct FmtBuf<const N: usize> {
    buf: [u8; N],
    len: usize,
}

/// `cur` with as much of `add` appended as fits in `n` bytes.
pub open spec fn append_capped(cur: Seq<u8>, add: Seq<u8>, n: int) -> Seq<u8> {
    let room = n - cur.len();
    cur + add.subrange(0, if add.len() < room { add.len() as int } else { room })
}

impl<const N: usize> FmtBuf<N> {
    #[verifier::type_invariant]
    spec fn inv(&self) -> bool {
        self.len <= N
    }

    /// The bytes written so far.
    pub closed spec fn bytes(&self) -> Seq<u8> {
        self.buf@.subrange(0, self.len as int)
    }

    pub fn new() -> (r: Self)
        ensures
            r.bytes() == Seq::<u8>::empty(),
    {
        let r = FmtBuf { buf: [0u8; N], len: 0 };
        proof {
            assert(r.bytes() =~= Seq::<u8>::empty());
        }
        r
    }

    /// The text written so far, or the empty string when a cut left it
    /// ending inside a multi-byte character.
    pub fn as_str(&self) -> (r: &str)
        ensures
            valid_utf8(self.bytes()) ==> r.spec_bytes() == self.bytes(),
            !valid_utf8(self.bytes()) ==> r@ == ""@,
    {
        proof {
            use_type_invariant(self);
        }
        let s = &self.buf[0..self.len];
        match utf8_str(s) {
            Some(t) => t,
            None => "",
        }
    }

    pub fn len(&self) -> (r: usize)
        ensures
            r == self.bytes().len(),
    {
        proof {
            use_type_invariant(self);
        }
        self.len
    }

    pub fn is_empty(&self) -> (r: bool)
        ensures
            r == (self.bytes().len() == 0),
    {
        proof {
            use_type_invariant(self);
        }
        self.len == 0
    }

    pub fn clear(&mut self)
        ensures
            final(self).bytes() == Seq::<u8>::empty(),
    {
        self.len = 0;
        proof {
            assert(self.bytes() =~= Seq::<u8>::empty());
        }
    }

    /// Append as much of `s` as fits.
    pub fn push_str(&mut self, s: &str) -> (r: &mut Self)
        ensures
            r.bytes() == append_capped(old(self).bytes(), s.spec_bytes(), N as int),
            *final(self) == *final(r),
    {
        proof {
            use_type_invariant(&*self);
        }
        let b = s.as_bytes();
        let free = N - self.len;
        let copy = if b.len() < free { b.len() } else { free };
        let start = self.len;
        let ghost old_bytes = self.bytes();
        let mut k: usize = 0;
        while k < copy
            invariant
                0 <= k <= copy,
                copy <= b@.len(),
                start + copy <= N,
                start == self.len,
                self.len <= N,
                self.buf@.len() == N,
                old_bytes == old(self).bytes(),
                self.buf@.subrange(0, start as int) == old_bytes,
                forall|j: int| 0 <= j < k ==> self.buf@[start + j] == b@[j],
            decreases copy - k,
        {
            let x = b[k];
            let ghost ob = self.buf@;
            self.buf[start + k] = x;
            proof {
                assert(self.buf@.subrange(0, start as int) =~= ob.subrange(0, start as int));
            }
            k = k + 1;
        }
        self.len = start + copy;
        proof {
            assert(self.bytes() =~= append_capped(old_bytes, s.spec_bytes(), N as int));
        }
        self
    }

    /// Append the decimal text of `v` (as much as fits).
    pub fn push_u64(&mut self, v: u64) -> (r: &mut Self)
        ensures
            r.bytes() == append_capped(old(self).bytes(), dec_digits(v as nat), N as int),
            *final(self) == *final(r),
    {
        let mut buf = num_buf();
        self.push_str(u64_to_str(v, &mut buf))
    }

    /// Append the decimal text of `v` (as much as fits).
    pub fn push_i64(&mut self, v: i64) -> (r: &mut Self)
        ensures
            r.bytes() == append_capped(old(self).bytes(), signed_text(v as int), N as int),
            *final(self) == *final(r),
    {
        let mut buf = num_buf();
        self.push_str(i64_to_str(v, &mut buf))
    }

    /// Append the decimal text of `v` (as much as fits).
    pub fn push_usize(&mut self, v: usize) -> (r: &mut Self)
        ensures
            r.bytes() == append_capped(old(self).bytes(), dec_digits(v as nat), N as int),
            *final(self) == *final(r),
    {
        self.push_u64(v as u64)
    }

    /// Append `"0x"` and the hexadecimal digits of `v` (as much as fits).
    pub fn push_hex(&mut self, v: u64) -> (r: &mut Self)
        ensures
            r.bytes() == append_capped(old(self).bytes(), hex_text(v as nat), N as int),
            *final(self) == *final(r),
    {
        let mut buf = num_buf();
        self.push_str(u64_to_hex(v, &mut buf))
    }

    /// Append `true` or `false` (as much as fits).
    pub fn push_bool(&mut self, v: bool) -> (r: &mut Self)
        ensures
            r.bytes() == append_capped(old(self).bytes(), encode_utf8(if v { "true"@ } else { "false"@ }), N as int),
            *final(self) == *final(r),
    {
        self.push_str(bool_to_str(v))
    }

    /// Append the UTF-8 encoding of `c` (as much as fits).
    pub fn push_char(&mut self, c: char) -> (r: &mut Self)
        ensures
            r.bytes() == append_capped(old(self).bytes(), encode_utf8(seq![c]), N as int),
            *final(self) == *final(r),
    {
        let mut enc = [0u8; 4];
        self.push_str(encode_char(c, &mut enc))
    }
}

} // verus!
