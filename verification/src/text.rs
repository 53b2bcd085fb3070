//! Bytes as text.

use vstd::prelude::*;
use vstd::utf8::{decode_utf8, encode_utf8, valid_utf8};

verus! {

/// The text that stands for a byte string when what is no UTF-8 is replaced.
pub uninterp spec fn lossy_text(bytes: Seq<u8>) -> Seq<char>;

/// `String::from_utf8_lossy`: the text depends on the bytes alone, and bytes that
/// are UTF-8 give the text that they encode. Which replacement characters stand
/// for other bytes is not stated.
#[verifier::external_body]
pub(crate) fn to_string_lossy(bytes: &[u8]) -> (r: String)
    ensures
        r@ == lossy_text(bytes@),
        valid_utf8(bytes@) ==> r@ == decode_utf8(bytes@),
{
    String::from_utf8_lossy(bytes).into_owned()
}

/// The characters that Unicode calls white space.
pub open spec fn is_white_space(c: char) -> bool {
    let n = c as u32;
    ||| 0x09 <= n <= 0x0d
    ||| n == 0x20
    ||| n == 0x85
    ||| n == 0xa0
    ||| n == 0x1680
    ||| 0x2000 <= n <= 0x200a
    ||| n == 0x2028
    ||| n == 0x2029
    ||| n == 0x202f
    ||| n == 0x205f
    ||| n == 0x3000
}

fn white_space(c: char) -> (r: bool)
    ensures
        r == is_white_space(c),
{
    let n: u32 = c as u32;
    (0x09 <= n && n <= 0x0d) || n == 0x20 || n == 0x85 || n == 0xa0 || n == 0x1680 || (0x2000 <= n
        && n <= 0x200a) || n == 0x2028 || n == 0x2029 || n == 0x202f || n == 0x205f || n == 0x3000
}

/// Whether a text is `c` but for white space around it.
pub open spec fn trims_to(s: Seq<char>, c: char) -> bool {
    exists|i: int|
        0 <= i < s.len() && #[trigger] s[i] == c && (forall|j: int|
            0 <= j < s.len() && j != i ==> is_white_space(#[trigger] s[j]))
}

/// Whether `s` is `c`, which is no white space, once the white space around it is
/// taken off.
pub fn is_trimmed_char(s: &str, c: char) -> (r: bool)
    requires
        !is_white_space(c),
    ensures
        r == trims_to(s@, c),
{
    let n: usize = s.unicode_len();
    let mut seen = false;
    let ghost mut at: int = -1;
    let mut i: usize = 0;
    while i < n
        invariant
            !is_white_space(c),
            n == s@.len(),
            i <= n,
            seen ==> 0 <= at < i && s@[at] == c,
            forall|j: int| 0 <= j < i && !(seen && j == at) ==> is_white_space(#[trigger] s@[j]),
        decreases n - i,
    {
        let x = s.get_char(i);
        if !white_space(x) {
            if seen || x != c {
                proof {
                    if trims_to(s@, c) {
                        let k = choose|k: int|
                            0 <= k < s@.len() && #[trigger] s@[k] == c && (forall|j: int|
                                0 <= j < s@.len() && j != k ==> is_white_space(#[trigger] s@[j]));
                        assert(s@[i as int] == x);
                        assert(i == k);
                        if seen {
                            assert(s@[at] == c);
                            assert(at != k);
                        }
                        assert(false);
                    }
                }
                return false;
            }
            seen = true;
            proof {
                at = i as int;
            }
        }
        i = i + 1;
    }
    proof {
        if seen {
            assert(s@[at] == c);
        } else if trims_to(s@, c) {
            let k = choose|k: int|
                0 <= k < s@.len() && #[trigger] s@[k] == c && (forall|j: int|
                    0 <= j < s@.len() && j != k ==> is_white_space(#[trigger] s@[j]));
            assert(is_white_space(s@[k]));
        }
    }
    seen
}

/// Texts put together are encoded one after the other.
pub proof fn lemma_encode_add(a: Seq<char>, b: Seq<char>)
    ensures
        encode_utf8(a + b) == encode_utf8(a) + encode_utf8(b),
    decreases a.len(),
{
    if a.len() == 0 {
        assert(a + b =~= b);
        assert(encode_utf8(a) + encode_utf8(b) =~= encode_utf8(b));
    } else {
        lemma_encode_add(a.drop_first(), b);
        assert((a + b).drop_first() =~= a.drop_first() + b);
        assert(encode_utf8(a + b) =~= encode_utf8(a) + encode_utf8(b));
    }
}

} // verus!
