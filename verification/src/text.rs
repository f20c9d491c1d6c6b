//! Text from codepoints.
use vstd::prelude::*;

verus! {

/// Whether a codepoint is a Unicode scalar value, no surrogate.
pub open spec fn is_scalar(cp: u32) -> bool {
    cp < 0xd800 || 0xe000 <= cp < 0x11_0000
}

/// `char::from_u32`: the character of a codepoint that is a Unicode scalar
/// value, and nothing for any other number.
pub assume_specification[ char::from_u32 ](i: u32) -> (r: Option<char>)
    ensures
        r == (if is_scalar(i) {
            Some(i as char)
        } else {
            None
        }),
;

/// `String::push`: appends a character.
pub assume_specification[ std::string::String::push ](s: &mut std::string::String, c: char)
    ensures
        final(s)@ == old(s)@.push(c),
;

/// The text of codepoints, without those that are no scalar values.
pub open spec fn text_of(cps: Seq<u32>) -> Seq<char>
    decreases cps.len(),
{
    if cps.len() == 0 {
        Seq::empty()
    } else {
        let rest = text_of(cps.drop_last());
        if is_scalar(cps.last()) {
            rest.push(cps.last() as char)
        } else {
            rest
        }
    }
}

/// The text of codepoints. Surrogates have no character and are left out.
pub fn codepoints_to_string(cps: &Vec<u32>) -> (r: String)
    ensures
        r@ == text_of(cps@),
{
    let mut out = String::new();
    let mut i: usize = 0;
    assert(cps@.take(0) =~= Seq::<u32>::empty());
    assert(out@ =~= text_of(cps@.take(0)));
    while i < cps.len()
        invariant
            i <= cps@.len(),
            out@ == text_of(cps@.take(i as int)),
        decreases cps@.len() - i,
    {
        assert(cps@.take(i + 1).drop_last() =~= cps@.take(i as int));
        if let Some(c) = char::from_u32(cps[i]) {
            out.push(c);
        }
        i = i + 1;
    }
    assert(cps@.take(i as int) =~= cps@);
    out
}

/// Text without surrogates has as many characters as codepoints.
pub proof fn lemma_text_keeps_scalars(cps: Seq<u32>)
    requires
        forall|i: int| 0 <= i < cps.len() ==> is_scalar(#[trigger] cps[i]),
    ensures
        text_of(cps).len() == cps.len(),
        forall|i: int| 0 <= i < cps.len() ==> #[trigger] text_of(cps)[i] == cps[i] as char,
    decreases cps.len(),
{
    if cps.len() > 0 {
        let front = cps.drop_last();
        assert forall|i: int| 0 <= i < front.len() implies is_scalar(#[trigger] front[i]) by {
            assert(front[i] == cps[i]);
        }
        lemma_text_keeps_scalars(front);
        assert(is_scalar(cps[cps.len() - 1]));
    }
}

} // verus!
