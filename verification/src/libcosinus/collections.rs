//! Growable vector, UTF-8 string and owning box of the user-space runtime.
//! The vector keeps its own capacity, which starts at 4 and doubles.
use vstd::prelude::*;
use vstd::string::StringSliceAdditionalSpecFns;
use vstd::utf8::{valid_utf8, encode_utf8};
use crate::libcosinus::fmt::{utf8_str, encode_char};

verus! {

/// Unicode white space (the `White_Space` property, as `char::is_whitespace`
/// has it).
pub open spec fn is_white(c: char) -> bool {
    let u = c as u32;
    (0x09 <= u <= 0x0D) || u == 0x20 || u == 0x85 || u == 0xA0 || u == 0x1680 || (0x2000 <= u <= 0x200A) || u
        == 0x2028 || u == 0x2029 || u == 0x202F || u == 0x205F || u == 0x3000
}

/// First index from `i` on that holds no white space (or the length).
pub open spec fn lead_white(s: Seq<char>, i: int) -> int
    decreases s.len() - i,
{
    if i >= s.len() || !is_white(s[i]) {
        i
    } else {
        lead_white(s, i + 1)
    }
}

/// Index after the last character before `j` that is no white space (or 0).
pub open spec fn trail_white(s: Seq<char>, j: int) -> int
    decreases j,
{
    if j <= 0 {
        0
    } else if !is_white(s[j - 1]) {
        j
    } else {
        trail_white(s, j - 1)
    }
}

/// The characters without leading and trailing white space.
pub open spec fn trimmed(s: Seq<char>) -> Seq<char> {
    let a = lead_white(s, 0);
    let b = trail_white(s, s.len() as int);
    if a < b {
        s.subrange(a, b)
    } else {
        Seq::empty()
    }
}

fn white(c: char) -> (r: bool)
    ensures
        r == is_white(c),
{
    let u = c as u32;
    (0x09 <= u && u <= 0x0D) || u == 0x20 || u == 0x85 || u == 0xA0 || u == 0x1680 || (0x2000 <= u && u <= 0x200A)
        || u == 0x2028 || u == 0x2029 || u == 0x202F || u == 0x205F || u == 0x3000
}

/// `s` without leading and trailing white space.
fn str_trim<'a>(s: &'a str) -> (r: &'a str)
    ensures
        r@ == trimmed(s@),
{
    let n = s.unicode_len();
    let mut a: usize = 0;
    while a < n && white(s.get_char(a))
        invariant
            n == s@.len(),
            a <= n,
            lead_white(s@, a as int) == lead_white(s@, 0),
        decreases n - a,
    {
        a = a + 1;
    }
    let mut b: usize = n;
    while b > 0 && white(s.get_char(b - 1))
        invariant
            n == s@.len(),
            b <= n,
            trail_white(s@, b as int) == trail_white(s@, n as int),
        decreases b,
    {
        b = b - 1;
    }
    if a < b {
        s.substring_char(a, b)
    } else {
        proof {
            reveal_strlit("");
        }
        let e = "";
        assert(e@ =~= Seq::<char>::empty());
        e
    }
}

// ── CosVec ───────────────────────────────────────────────────────────────────

/// Growable array with an explicit capacity.
pub struct CosVec<T> {
    data: Vec<T>,
    cap: usize,
}

/// Capacity after growing from `cap`.
pub open spec fn grown(cap: nat) -> nat {
    if cap == 0 {
        4
    } else {
        2 * cap
    }
}

/// The elements of `s` whose flag in `keep` is set, in order.
pub open spec fn kept<T>(s: Seq<T>, keep: Seq<bool>) -> Seq<T>
    decreases s.len(),
{
    if s.len() == 0 {
        Seq::empty()
    } else {
        kept(s.drop_last(), keep.drop_last()) + if keep.last() {
            seq![s.last()]
        } else {
            Seq::empty()
        }
    }
}

impl<T> CosVec<T> {
    pub closed spec fn view(&self) -> Seq<T> {
        self.data@
    }

    pub closed spec fn spec_capacity(&self) -> nat {
        self.cap as nat
    }

    pub fn new() -> (r: Self)
        ensures
            r@ == Seq::<T>::empty(),
            r.spec_capacity() == 0,
    {
        CosVec { data: Vec::new(), cap: 0 }
    }

    /// An empty vector with room for `cap` elements.
    pub fn with_capacity(cap: usize) -> (r: Option<Self>)
        ensures
            r matches Some(v) && v@ == Seq::<T>::empty() && v.spec_capacity() == cap,
    {
        Some(CosVec { data: Vec::new(), cap })
    }

    pub fn len(&self) -> (r: usize)
        ensures
            r == self@.len(),
    {
        self.data.len()
    }

    pub fn capacity(&self) -> (r: usize)
        ensures
            r == self.spec_capacity(),
    {
        self.cap
    }

    pub fn is_empty(&self) -> (r: bool)
        ensures
            r == (self@.len() == 0),
    {
        self.data.len() == 0
    }

    pub fn as_slice(&self) -> (r: &[T])
        ensures
            r@ == self@,
    {
        self.data.as_slice()
    }

    /// Append `val`, first growing the capacity when the vector is full.
    pub fn push(&mut self, val: T) -> (r: Result<(), T>)
        requires
            old(self)@.len() == old(self).spec_capacity() ==> grown(old(self).spec_capacity()) <= usize::MAX,
        ensures
            r is Ok,
            final(self)@ == old(self)@.push(val),
            final(self).spec_capacity() == if old(self)@.len() == old(self).spec_capacity() {
                grown(old(self).spec_capacity())
            } else {
                old(self).spec_capacity()
            },
            old(self)@.len() <= old(self).spec_capacity() ==> final(self)@.len() <= final(self).spec_capacity(),
    {
        if self.data.len() == self.cap {
            self.grow();
        }
        self.data.push(val);
        Ok(())
    }

    fn grow(&mut self)
        requires
            grown(old(self).spec_capacity()) <= usize::MAX,
        ensures
            final(self)@ == old(self)@,
            final(self).spec_capacity() == grown(old(self).spec_capacity()),
    {
        let new_cap = if self.cap == 0 { 4 } else { self.cap * 2 };
        self.cap = new_cap;
    }

    /// Remove and return the last element.
    pub fn pop(&mut self) -> (r: Option<T>)
        ensures
            old(self)@.len() == 0 ==> r is None && final(self)@ == old(self)@,
            old(self)@.len() > 0 ==> r == Some(old(self)@.last()) && final(self)@ == old(self)@.drop_last(),
            final(self).spec_capacity() == old(self).spec_capacity(),
    {
        self.data.pop()
    }

    pub fn get(&self, i: usize) -> (r: Option<&T>)
        ensures
            i < self@.len() ==> r == Some(&self@[i as int]),
            i >= self@.len() ==> r is None,
    {
        if i >= self.data.len() {
            return None;
        }
        Some(&self.data[i])
    }

    /// Drop every element; the capacity stays.
    pub fn clear(&mut self)
        ensures
            final(self)@ == Seq::<T>::empty(),
            final(self).spec_capacity() == old(self).spec_capacity(),
    {
        self.data.clear();
    }

    /// Drop the elements from `new_len` on; the capacity stays.
    pub fn truncate(&mut self, new_len: usize)
        ensures
            new_len < old(self)@.len() ==> final(self)@ == old(self)@.subrange(0, new_len as int),
            new_len >= old(self)@.len() ==> final(self)@ == old(self)@,
            final(self).spec_capacity() == old(self).spec_capacity(),
    {
        self.data.truncate(new_len);
    }

    /// Keep the elements for which `f` answers `true`, in order; the
    /// capacity stays.
    pub fn retain<F: Fn(&T) -> bool>(&mut self, f: F)
        requires
            forall|j: int| 0 <= j < old(self)@.len() ==> f.requires((&old(self)@[j],)),
        ensures
            final(self).spec_capacity() == old(self).spec_capacity(),
            exists|keep: Seq<bool>|
                #![trigger kept(old(self)@, keep)]
                keep.len() == old(self)@.len() && (forall|j: int|
                    0 <= j < keep.len() ==> f.ensures((&old(self)@[j],), #[trigger] keep[j]))
                    && final(self)@ == kept(old(self)@, keep),
    {
        let ghost orig = self@;
        let ghost mut keep: Seq<bool> = Seq::empty();
        let mut i: usize = 0;
        proof {
            assert(orig.take(0) =~= Seq::<T>::empty());
            assert(orig.skip(0) =~= orig);
            assert(kept(orig.take(0), keep) =~= Seq::<T>::empty());
            assert(self.data@ =~= kept(orig.take(0), keep) + orig.skip(0));
        }
        while i < self.data.len()
            invariant
                orig == old(self)@,
                self.cap == old(self).cap,
                forall|j: int| 0 <= j < orig.len() ==> f.requires((&orig[j],)),
                keep.len() <= orig.len(),
                forall|j: int| 0 <= j < keep.len() ==> f.ensures((&orig[j],), #[trigger] keep[j]),
                i == kept(orig.take(keep.len() as int), keep).len(),
                self.data@ == kept(orig.take(keep.len() as int), keep) + orig.skip(keep.len() as int),
            decreases self.data@.len() - i,
        {
            let ghost k = keep.len() as int;
            proof {
                assert(self.data@[i as int] == orig[k]);
            }
            let b = f(&self.data[i]);
            proof {
                let t1 = orig.take(k + 1);
                assert(t1.drop_last() =~= orig.take(k));
                assert(t1.last() == orig[k]);
                assert(keep.push(b).drop_last() =~= keep);
                assert(orig.skip(k) =~= seq![orig[k]] + orig.skip(k + 1));
            }
            if !b {
                let _ = self.data.remove(i);
                proof {
                    keep = keep.push(b);
                    assert(self.data@ =~= kept(orig.take(keep.len() as int), keep) + orig.skip(keep.len() as int));
                }
            } else {
                i = i + 1;
                proof {
                    keep = keep.push(b);
                    assert(self.data@ =~= kept(orig.take(keep.len() as int), keep) + orig.skip(keep.len() as int));
                }
            }
        }
        proof {
            assert(keep.len() == orig.len()) by {
                if keep.len() < orig.len() {
                    assert(self.data@.len() > i);
                }
            }
            assert(orig.take(orig.len() as int) =~= orig);
            assert(orig.skip(orig.len() as int) =~= Seq::<T>::empty());
            assert(self@ =~= kept(orig, keep));
        }
    }

    /// Iterator over the elements in order.
    pub fn iter(&self) -> (r: core::slice::Iter<'_, T>)
        ensures
            vstd::std_specs::slice::into_iter_elts(r) == self@,
    {
        let r = self.data.as_slice().iter();
        proof {
            broadcast use vstd::std_specs::slice::axiom_spec_slice_iter;
            assert(vstd::std_specs::slice::into_iter_elts(r) =~= self@);
        }
        r
    }
}

impl CosVec<u8> {
    /// Append every byte of `b`, growing as `push` does.
    fn extend_bytes(&mut self, b: &[u8])
        requires
            old(self).spec_capacity() + old(self)@.len() + b@.len() <= usize::MAX / 8,
        ensures
            final(self)@ == old(self)@ + b@,
            old(self).spec_capacity() <= final(self).spec_capacity() <= 2 * (old(self).spec_capacity()
                + final(self)@.len()) + 4,
    {
        let mut k: usize = 0;
        while k < b.len()
            invariant
                0 <= k <= b@.len(),
                self@ == old(self)@ + b@.subrange(0, k as int),
                old(self).spec_capacity() + old(self)@.len() + b@.len() <= usize::MAX / 8,
                old(self).spec_capacity() <= self.spec_capacity() <= 2 * (old(self).spec_capacity() + self@.len()) + 4,
            decreases b@.len() - k,
        {
            let x = b[k];
            let _ = self.push(x);
            k = k + 1;
            proof {
                assert(self@ =~= old(self)@ + b@.subrange(0, k as int));
            }
        }
        proof {
            assert(b@.subrange(0, b@.len() as int) =~= b@);
        }
    }
}

// ── CosString ────────────────────────────────────────────────────────────────

/// Growable UTF-8 string.
pub struct CosString {
    bytes: CosVec<u8>,
}

/// `h` holds `n` at byte offset `i`.
pub open spec fn occurs_at(h: Seq<u8>, n: Seq<u8>, i: int) -> bool {
    0 <= i && i + n.len() <= h.len() && h.subrange(i, i + n.len()) == n
}

impl CosString {
    #[verifier::type_invariant]
    spec fn inv(&self) -> bool {
        valid_utf8(self.bytes@)
    }

    /// The string's bytes.
    pub closed spec fn spec_bytes(&self) -> Seq<u8> {
        self.bytes@
    }

    pub closed spec fn spec_capacity(&self) -> nat {
        self.bytes.spec_capacity()
    }

    pub fn new() -> (r: Self)
        ensures
            r.spec_bytes() == Seq::<u8>::empty(),
    {
        proof {
            assert(valid_utf8(Seq::<u8>::empty()));
        }
        CosString { bytes: CosVec::new() }
    }

    /// A string holding the bytes of `s`.
    pub fn from_str(s: &str) -> (r: Option<Self>)
        requires
            2 * s.spec_bytes().len() <= usize::MAX / 8,
        ensures
            r matches Some(t) && t.spec_bytes() == s.spec_bytes(),
    {
        let b = s.as_bytes();
        let mut v = match CosVec::with_capacity(b.len()) {
            Some(v) => v,
            None => return None,
        };
        v.extend_bytes(b);
        proof {
            vstd::utf8::encode_utf8_valid_utf8(s@);
            assert(v@ =~= s.spec_bytes());
        }
        Some(CosString { bytes: v })
    }

    pub fn as_str(&self) -> (r: &str)
        ensures
            r.spec_bytes() == self.spec_bytes(),
    {
        proof {
            use_type_invariant(self);
        }
        match utf8_str(self.bytes.as_slice()) {
            Some(t) => t,
            None => "",
        }
    }

    /// Length in bytes.
    pub fn len(&self) -> (r: usize)
        ensures
            r == self.spec_bytes().len(),
    {
        self.bytes.len()
    }

    pub fn is_empty(&self) -> (r: bool)
        ensures
            r == (self.spec_bytes().len() == 0),
    {
        self.bytes.is_empty()
    }

    /// Append the bytes of `s`.
    pub fn push_str(&mut self, s: &str) -> (r: Result<(), ()>)
        requires
            old(self).spec_capacity() + old(self).spec_bytes().len() + s.spec_bytes().len() <= usize::MAX / 8,
        ensures
            r is Ok,
            final(self).spec_bytes() == old(self).spec_bytes() + s.spec_bytes(),
    {
        proof {
            use_type_invariant(&*self);
            vstd::utf8::encode_utf8_valid_utf8(s@);
            vstd::utf8::valid_utf8_concat(self.bytes@, s.spec_bytes());
        }
        let b = s.as_bytes();
        let mut v = CosVec::new();
        std::mem::swap(&mut v, &mut self.bytes);
        v.extend_bytes(b);
        self.bytes = v;
        Ok(())
    }

    /// Append the UTF-8 encoding of `c`.
    pub fn push_char(&mut self, c: char) -> (r: Result<(), ()>)
        requires
            old(self).spec_capacity() + old(self).spec_bytes().len() + 4 <= usize::MAX / 8,
        ensures
            r is Ok,
            final(self).spec_bytes() == old(self).spec_bytes() + encode_utf8(seq![c]),
    {
        let mut enc = [0u8; 4];
        let s = encode_char(c, &mut enc);
        self.push_str(s)
    }

    pub fn clear(&mut self)
        ensures
            final(self).spec_bytes() == Seq::<u8>::empty(),
    {
        proof {
            assert(valid_utf8(Seq::<u8>::empty()));
        }
        let mut v = CosVec::new();
        std::mem::swap(&mut v, &mut self.bytes);
        v.clear();
        self.bytes = v;
    }

    pub fn as_bytes(&self) -> (r: &[u8])
        ensures
            r@ == self.spec_bytes(),
    {
        self.bytes.as_slice()
    }

    /// Whether `pat` occurs in the string (the empty pattern always does).
    pub fn contains(&self, pat: &str) -> (r: bool)
        ensures
            r == exists|i: int| occurs_at(self.spec_bytes(), pat.spec_bytes(), i),
    {
        let h = self.bytes.as_slice();
        let n = pat.as_bytes();
        if n.len() == 0 {
            proof {
                assert(occurs_at(h@, n@, 0)) by {
                    assert(h@.subrange(0, 0) =~= n@);
                }
                assert(occurs_at(self.spec_bytes(), pat.spec_bytes(), 0));
            }
            return true;
        }
        if n.len() > h.len() {
            return false;
        }
        let hl = h.len();
        let last = hl - n.len();
        let mut i: usize = 0;
        while i <= last
            invariant
                0 <= i <= last + 1,
                hl == h@.len(),
                n@.len() >= 1,
                last + n@.len() == h@.len(),
                h@ == self.spec_bytes(),
                n@ == pat.spec_bytes(),
                forall|j: int| 0 <= j < i ==> !occurs_at(h@, n@, j),
            decreases last + 1 - i,
        {
            if bytes_at(h, n, i) {
                return true;
            }
            i = i + 1;
        }
        proof {
            assert forall|j: int| !occurs_at(h@, n@, j) by {
                if 0 <= j && j + n@.len() <= h@.len() {
                    assert(j <= last);
                }
            }
        }
        false
    }

    pub fn starts_with(&self, pat: &str) -> (r: bool)
        ensures
            r == occurs_at(self.spec_bytes(), pat.spec_bytes(), 0),
    {
        let h = self.bytes.as_slice();
        let n = pat.as_bytes();
        if n.len() > h.len() {
            return false;
        }
        bytes_at(h, n, 0)
    }

    pub fn ends_with(&self, pat: &str) -> (r: bool)
        ensures
            r == (pat.spec_bytes().len() <= self.spec_bytes().len() && occurs_at(
                self.spec_bytes(),
                pat.spec_bytes(),
                self.spec_bytes().len() - pat.spec_bytes().len(),
            )),
    {
        let h = self.bytes.as_slice();
        let n = pat.as_bytes();
        if n.len() > h.len() {
            return false;
        }
        bytes_at(h, n, h.len() - n.len())
    }

    /// The string without leading and trailing white space.
    pub fn trim(&self) -> (r: &str)
        ensures
            exists|s: Seq<char>| encode_utf8(s) == self.spec_bytes() && r@ == trimmed(s),
    {
        let s = self.as_str();
        let t = str_trim(s);
        proof {
            assert(encode_utf8(s@) == self.spec_bytes());
        }
        t
    }
}

/// Whether `n` occurs in `h` at offset `i`.
fn bytes_at(h: &[u8], n: &[u8], i: usize) -> (r: bool)
    requires
        i + n@.len() <= h@.len(),
    ensures
        r == occurs_at(h@, n@, i as int),
{
    let hl = h.len();
    let mut k: usize = 0;
    while k < n.len()
        invariant
            0 <= k <= n@.len(),
            hl == h@.len(),
            i + n@.len() <= h@.len(),
            forall|j: int| 0 <= j < k ==> h@[i + j] == n@[j],
        decreases n@.len() - k,
    {
        if h[i + k] != n[k] {
            proof {
                assert(h@.subrange(i as int, i + n@.len())[k as int] != n@[k as int]);
            }
            return false;
        }
        k = k + 1;
    }
    proof {
        assert(h@.subrange(i as int, i + n@.len()) =~= n@);
    }
    true
}

// ── CosBox ───────────────────────────────────────────────────────────────────

/// Owning pointer to one heap value.
pub struct CosBox<T> {
    ptr: Box<T>,
}

impl<T> CosBox<T> {
    pub closed spec fn value(&self) -> T {
        *self.ptr
    }

    pub fn new(val: T) -> (r: Option<Self>)
        ensures
            r matches Some(b) && b.value() == val,
    {
        Some(CosBox { ptr: Box::new(val) })
    }

    pub fn into_inner(self) -> (r: T)
        ensures
            r == self.value(),
    {
        *self.ptr
    }
}

/// Conversion of an allocation result into a syscall-style result.
pub trait IntoResult<T>: Sized {
    fn ok_or_nomem(self) -> Result<T, i64>;
}

impl<T> IntoResult<T> for Option<T> {
    /// `Some(v)` becomes `Ok(v)`, `None` becomes `Err(err::NOMEM)`.
    fn ok_or_nomem(self) -> (r: Result<T, i64>)
        ensures
            self matches Some(v) ==> r == Ok::<T, i64>(v),
            self is None ==> r == Err::<T, i64>(crate::syscall_api::err::NOMEM),
    {
        match self {
            Some(v) => Ok(v),
            None => Err(crate::syscall_api::err::NOMEM),
        }
    }
}

} // verus!
