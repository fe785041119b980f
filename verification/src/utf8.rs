//! Reading bytes as UTF-8 text.
use vstd::prelude::*;
use vstd::utf8::*;

verus! {

/// `core::str::from_utf8`, with the text owned: `Some` exactly when the
/// bytes are well-formed UTF-8 (vstd's `valid_utf8`, which rejects overlong
/// forms, surrogates and values past U+10FFFF as std does), and then the
/// characters that they encode.
#[verifier::external_body]
pub fn str_from_utf8(bytes: &[u8]) -> (r: Option<String>)
    ensures
        r is Some <==> valid_utf8(bytes@),
        r matches Some(s) ==> s@ == decode_utf8(bytes@),
{
    match core::str::from_utf8(bytes) {
        Ok(s) => Some(s.to_string()),
        Err(_) => None,
    }
}

/// Well-formed UTF-8 cut just before an ASCII byte gives two well-formed
/// halves: no encoded character spans an ASCII byte.
pub proof fn lemma_valid_utf8_split_at_ascii(x: Seq<u8>, y: Seq<u8>)
    requires
        valid_utf8(x + y),
        y.len() > 0,
        y[0] < 0x80,
    ensures
        valid_utf8(x),
        valid_utf8(y),
    decreases x.len(),
{
    let s = x + y;
    if x.len() == 0 {
        assert(s =~= y);
    } else {
        assert(s[0] == x[0]);
        assert(s[x.len() as int] == y[0]);
        assert(x.len() >= 2 ==> s[1] == x[1]);
        assert(x.len() >= 3 ==> s[2] == x[2]);
        assert(x.len() >= 4 ==> s[3] == x[3]);
        let n = length_of_first_scalar(s);
        assert(n <= x.len());
        assert(valid_first_scalar(x));
        assert(length_of_first_scalar(x) == n);
        assert(pop_first_scalar(s) =~= pop_first_scalar(x) + y);
        lemma_valid_utf8_split_at_ascii(pop_first_scalar(x), y);
    }
}

} // verus!
