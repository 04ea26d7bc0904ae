//! Byte-level order and suffix tests on labels and paths.
//!
//! Labels are ordered as Rust orders strings: lexicographically by the bytes
//! of their UTF-8 encoding.

use vstd::prelude::*;
use vstd::string::*;

verus! {

/// The UTF-8 encoding of a string.
pub open spec fn bytes_of(s: Seq<char>) -> Seq<u8> {
    vstd::utf8::encode_utf8(s)
}

/// Strict lexicographic order on byte sequences.
pub open spec fn lex_less(a: Seq<u8>, b: Seq<u8>) -> bool
    decreases a.len(),
{
    if b.len() == 0 {
        false
    } else if a.len() == 0 {
        true
    } else if a[0] == b[0] {
        lex_less(a.drop_first(), b.drop_first())
    } else {
        a[0] < b[0]
    }
}

/// How one byte sequence stands to another in lexicographic order.
#[derive(Clone, Copy, Debug, PartialEq, Eq, Structural)]
pub enum Precedence {
    Before,
    Same,
    After,
}

/// The precedence of `a` relative to `b`.
pub open spec fn precedence_of(a: Seq<u8>, b: Seq<u8>) -> Precedence {
    if lex_less(a, b) {
        Precedence::Before
    } else if a == b {
        Precedence::Same
    } else {
        Precedence::After
    }
}

/// `s` ends with `suffix`.
pub open spec fn ends_with(s: Seq<u8>, suffix: Seq<u8>) -> bool {
    suffix.len() <= s.len() && s.subrange(s.len() - suffix.len(), s.len() as int) == suffix
}

/// The bytes of `.jpg`.
pub open spec fn jpg_suffix() -> Seq<u8> {
    seq![46u8, 106u8, 112u8, 103u8]
}

/// The bytes of `.png`.
pub open spec fn png_suffix() -> Seq<u8> {
    seq![46u8, 112u8, 110u8, 103u8]
}

/// A path names an image file when it ends in `.jpg` or `.png` and the dot
/// does not open the file name: something other than `/` stands before it.
pub open spec fn is_image_path(path: Seq<u8>) -> bool {
    &&& path.len() >= 5
    &&& path[path.len() - 5] != 47u8
    &&& (ends_with(path, jpg_suffix()) || ends_with(path, png_suffix()))
}

/// No sequence precedes itself.
pub proof fn lemma_lex_irreflexive(a: Seq<u8>)
    ensures
        !lex_less(a, a),
    decreases a.len(),
{
    if a.len() > 0 {
        lemma_lex_irreflexive(a.drop_first());
    }
}

/// Of two sequences at most one precedes the other.
pub proof fn lemma_lex_asymmetric(a: Seq<u8>, b: Seq<u8>)
    ensures
        !(lex_less(a, b) && lex_less(b, a)),
    decreases a.len(),
{
    if a.len() > 0 && b.len() > 0 && a[0] == b[0] {
        lemma_lex_asymmetric(a.drop_first(), b.drop_first());
    }
}

/// Precedence is transitive.
pub proof fn lemma_lex_transitive(a: Seq<u8>, b: Seq<u8>, c: Seq<u8>)
    requires
        lex_less(a, b),
        lex_less(b, c),
    ensures
        lex_less(a, c),
    decreases a.len(),
{
    if a.len() > 0 && b.len() > 0 && c.len() > 0 && a[0] == b[0] && b[0] == c[0] {
        lemma_lex_transitive(a.drop_first(), b.drop_first(), c.drop_first());
    }
}

/// Two different sequences are ordered one way or the other.
pub proof fn lemma_lex_total(a: Seq<u8>, b: Seq<u8>)
    ensures
        lex_less(a, b) || a == b || lex_less(b, a),
    decreases a.len(),
{
    if a.len() > 0 && b.len() > 0 && a[0] == b[0] {
        lemma_lex_total(a.drop_first(), b.drop_first());
        if a.drop_first() == b.drop_first() {
            assert(a =~= seq![a[0]] + a.drop_first());
            assert(b =~= seq![b[0]] + b.drop_first());
        }
    } else if a.len() == 0 && b.len() == 0 {
        assert(a =~= b);
    }
}

/// Dropping a common prefix changes neither the order nor equality.
pub proof fn lemma_lex_skip_prefix(a: Seq<u8>, b: Seq<u8>, k: int)
    requires
        0 <= k <= a.len(),
        k <= b.len(),
        forall|j: int| 0 <= j < k ==> a[j] == b[j],
    ensures
        lex_less(a, b) == lex_less(a.skip(k), b.skip(k)),
        (a == b) == (a.skip(k) == b.skip(k)),
    decreases k,
{
    if k == 0 {
        assert(a.skip(0) =~= a);
        assert(b.skip(0) =~= b);
    } else {
        let a1 = a.drop_first();
        let b1 = b.drop_first();
        assert forall|j: int| 0 <= j < k - 1 implies a1[j] == b1[j] by {
            assert(a[j + 1] == b[j + 1]);
        }
        lemma_lex_skip_prefix(a1, b1, k - 1);
        assert(a1.skip(k - 1) =~= a.skip(k));
        assert(b1.skip(k - 1) =~= b.skip(k));
        assert(a[0] == b[0]);
        if a1 == b1 {
            assert(a =~= seq![a[0]] + a1);
            assert(b =~= seq![b[0]] + b1);
        }
    }
}

/// Different strings have different encodings.
pub proof fn lemma_bytes_of_injective(s: Seq<char>, t: Seq<char>)
    requires
        bytes_of(s) == bytes_of(t),
    ensures
        s == t,
{
    vstd::utf8::encode_utf8_decode_utf8(s);
    vstd::utf8::encode_utf8_decode_utf8(t);
}

/// Compares two byte slices lexicographically.
pub fn precedence_of_bytes(a: &[u8], b: &[u8]) -> (r: Precedence)
    ensures
        r == precedence_of(a@, b@),
{
    let mut i: usize = 0;
    while i < a.len() && i < b.len() && a[i] == b[i]
        invariant
            i <= a.len(),
            i <= b.len(),
            forall|j: int| 0 <= j < i ==> a@[j] == b@[j],
        decreases a.len() - i,
    {
        i = i + 1;
    }
    proof {
        lemma_lex_skip_prefix(a@, b@, i as int);
        let ra = a@.skip(i as int);
        let rb = b@.skip(i as int);
        if i < a.len() && i < b.len() {
            assert(ra[0] == a@[i as int]);
            assert(rb[0] == b@[i as int]);
            assert(ra != rb);
        } else if i < a.len() {
            assert(ra.len() != rb.len());
        } else if i < b.len() {
            assert(ra.len() != rb.len());
        } else {
            assert(ra =~= rb);
        }
    }
    if i == a.len() {
        if i == b.len() {
            Precedence::Same
        } else {
            Precedence::Before
        }
    } else if i == b.len() {
        Precedence::After
    } else if a[i] < b[i] {
        Precedence::Before
    } else {
        Precedence::After
    }
}

/// Tells whether two byte slices hold the same bytes.
pub fn bytes_equal(a: &[u8], b: &[u8]) -> (r: bool)
    ensures
        r == (a@ == b@),
{
    if a.len() != b.len() {
        return false;
    }
    let mut i: usize = 0;
    while i < a.len()
        invariant
            a.len() == b.len(),
            i <= a.len(),
            forall|j: int| 0 <= j < i ==> a@[j] == b@[j],
        decreases a.len() - i,
    {
        if a[i] != b[i] {
            return false;
        }
        i = i + 1;
    }
    assert(a@ =~= b@);
    true
}

/// Compares two labels as Rust orders strings.
pub fn label_precedence(a: &String, b: &String) -> (r: Precedence)
    ensures
        r == precedence_of(bytes_of(a@), bytes_of(b@)),
{
    precedence_of_bytes(a.as_str().as_bytes(), b.as_str().as_bytes())
}

/// Tells whether `s` ends with the four bytes of `suffix`.
fn ends_with_four(s: &[u8], suffix: [u8; 4]) -> (r: bool)
    ensures
        r == ends_with(s@, suffix@),
{
    let n = s.len();
    if n < 4 {
        return false;
    }
    let r = s[n - 4] == suffix[0] && s[n - 3] == suffix[1] && s[n - 2] == suffix[2] && s[n - 1]
        == suffix[3];
    proof {
        let tail = s@.subrange(n - 4, n as int);
        if r {
            assert(tail =~= suffix@);
        } else {
            assert(tail[0] == s@[n - 4]);
            assert(tail[1] == s@[n - 3]);
            assert(tail[2] == s@[n - 2]);
            assert(tail[3] == s@[n - 1]);
        }
    }
    r
}

/// Tells whether a path names a file with a recognised image extension.
pub fn has_image_extension(path: &String) -> (r: bool)
    ensures
        r == is_image_path(bytes_of(path@)),
{
    let bytes = path.as_str().as_bytes();
    let n = bytes.len();
    if n < 5 || bytes[n - 5] == 47u8 {
        return false;
    }
    let jpg: [u8; 4] = [46u8, 106u8, 112u8, 103u8];
    let png: [u8; 4] = [46u8, 112u8, 110u8, 103u8];
    proof {
        assert(jpg@ =~= jpg_suffix());
        assert(png@ =~= png_suffix());
    }
    ends_with_four(bytes, jpg) || ends_with_four(bytes, png)
}

} // verus!
