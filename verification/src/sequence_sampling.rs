//! Fresh byte strings, strings, booleans and indices.
use crate::choices::codepoint_at;
use crate::choices::value_fits;
use crate::choices::BytesChoice;
use crate::choices::KindView;
use crate::choices::Probability;
use crate::choices::StringChoice;
use crate::choices::StringKind;
use crate::choices::ValueView;
use crate::choices::PROBABILITY_ONE;
use crate::errors::InternalError;
use crate::intervalsets::constants_in_alphabet;
use crate::intervalsets::contained_constants;
use crate::intervalsets::ranges_contain;
use crate::intervalsets::ranges_size;
use crate::intervalsets::shrink_position;
use crate::intervalsets::written_in;
use crate::rng::EngineRng;
use crate::rng::UNIT_STEPS;
use crate::sampling::byte_numbers;
use crate::sampling::least;
use crate::sampling::nasty_threshold;
use crate::sampling::random_bytes;
use crate::sampling::Distributions;
use crate::sampling::Sampler;
use crate::text_constants::constant_texts;
use crate::text_constants::texts_codepoints;
use crate::text_constants::texts_view;
use vstd::prelude::*;

verus! {

/// A length of `[min_size, max_size]`, `extra` above the smallest where that
/// is not too much.
pub fn bounded_length(min_size: usize, max_size: usize, extra: usize) -> (r: usize)
    requires
        min_size <= max_size,
    ensures
        r == least(min_size + extra, max_size as int),
{
    if extra <= max_size - min_size {
        min_size + extra
    } else {
        max_size
    }
}

/// Whether a length is drawn: the next number that is handed out is the share
/// from which the laws of chance work it out, unless only one length is possible.
pub open spec fn length_outcome<D: Distributions>(
    d: D,
    before: Seq<int>,
    after: Seq<int>,
    min_size: int,
    max_size: int,
    n: int,
) -> bool {
    &&& min_size <= n <= max_size
    &&& if min_size == max_size {
        after == before
    } else {
        exists|share: u64, extra: usize|
            {
                &&& #[trigger] call_ensures(
                    D::extra_length,
                    (&d, min_size as usize, max_size as usize, share),
                    extra,
                )
                &&& share < UNIT_STEPS
                &&& after == before.push(share as int)
                &&& n == least(min_size + extra, max_size)
            }
    }
}

impl<D: Distributions> Sampler<D> {
    /// A length of `[min_size, max_size]`, more often short than long.
    pub fn many_draw_length(&self, rng: &mut EngineRng, min_size: usize, max_size: usize) -> (r:
        Result<usize, InternalError>)
        requires
            min_size <= max_size,
        ensures
            r matches Ok(n) && length_outcome(
                self.distributions,
                old(rng).handed(),
                final(rng).handed(),
                min_size as int,
                max_size as int,
                n as int,
            ),
    {
        if min_size == max_size {
            return Ok(min_size);
        }
        let share: u64 = rng.unit();
        let extra: usize = self.distributions.extra_length(min_size, max_size, share);
        Ok(bounded_length(min_size, max_size, extra))
    }
}

/// The byte strings that a kind favours: its simplest one, a single zero byte
/// where the simplest is empty, and a single byte of ones.
pub open spec fn bytes_candidates(k: BytesChoice) -> Seq<Seq<u8>> {
    let simplest = seq![Seq::new(k.min_size as nat, |i: int| 0u8)];
    let zero = if k.min_size == 0 && k.max_size > 0 {
        seq![seq![0u8]]
    } else {
        Seq::empty()
    };
    let ones = if k.min_size <= 1 && k.max_size >= 1 {
        seq![seq![0xffu8]]
    } else {
        Seq::empty()
    };
    simplest + zero + ones
}

/// How many byte strings a kind favours.
fn bytes_candidate_count(k: &BytesChoice) -> (r: usize)
    ensures
        r == bytes_candidates(*k).len(),
        1 <= r <= 3,
{
    let mut count: usize = 1;
    if k.min_size == 0 && k.max_size > 0 {
        count = count + 1;
    }
    if k.min_size <= 1 && k.max_size >= 1 {
        count = count + 1;
    }
    count
}

/// The byte string that a kind favours at place `idx`.
pub fn bytes_candidate(k: &BytesChoice, idx: usize) -> (r: Vec<u8>)
    requires
        idx < bytes_candidates(*k).len(),
    ensures
        r@ == bytes_candidates(*k)[idx as int],
{
    if idx == 0 {
        let r = k.simplest();
        assert(r@ =~= bytes_candidates(*k)[0]);
        return r;
    }
    let mut r: Vec<u8> = Vec::new();
    if k.min_size == 0 && k.max_size > 0 && idx == 1 {
        r.push(0);
    } else {
        r.push(0xff);
    }
    assert(r@ =~= bytes_candidates(*k)[idx as int]);
    r
}

/// Every byte string that a kind favours fits it.
pub proof fn lemma_bytes_candidates_fit(k: BytesChoice, idx: int)
    requires
        k.min_size <= k.max_size,
        0 <= idx < bytes_candidates(k).len(),
    ensures
        value_fits(KindView::Bytes(k), ValueView::Bytes(bytes_candidates(k)[idx])),
{
}

/// Whether a byte string is drawn when `u` is handed out first: an index into the
/// favoured ones follows, or else a length, which ends at `middle`, and the
/// bytes.
pub open spec fn bytes_drawn<D: Distributions>(
    d: D,
    k: BytesChoice,
    boundary: Probability,
    before: Seq<int>,
    middle: Seq<int>,
    after: Seq<int>,
    u: int,
    bytes: Seq<u8>,
) -> bool {
    let favoured = bytes_candidates(k);
    &&& 0 <= u < UNIT_STEPS
    &&& if u < favoured.len() * boundary.numerator {
        exists|i: int| 0 <= i < favoured.len() && bytes == #[trigger] favoured[i] && after
            == before.push(u).push(i)
    } else {
        &&& length_outcome(
            d,
            before.push(u),
            middle,
            k.min_size as int,
            k.max_size as int,
            bytes.len() as int,
        )
        &&& after == middle + byte_numbers(bytes)
    }
}

/// Whether a byte string is drawn.
pub open spec fn bytes_outcome<D: Distributions>(
    d: D,
    k: BytesChoice,
    boundary: Probability,
    before: Seq<int>,
    after: Seq<int>,
    bytes: Seq<u8>,
) -> bool {
    exists|u: int, middle: Seq<int>| #[trigger]
        bytes_drawn(d, k, boundary, before, middle, after, u, bytes)
}

impl<D: Distributions> Sampler<D> {
    /// A byte string of the kind.
    pub fn biased_bytes_sample(&self, bc: &BytesChoice, rng: &mut EngineRng) -> (r: Result<
        Vec<u8>,
        InternalError,
    >)
        requires
            bc.min_size <= bc.max_size,
        ensures
            r matches Ok(b) && value_fits(KindView::Bytes(*bc), ValueView::Bytes(b@))
                && bytes_outcome(
                self.distributions,
                *bc,
                self.boundary,
                old(rng).handed(),
                final(rng).handed(),
                b@,
            ),
    {
        let ghost before = rng.handed();
        let count: usize = bytes_candidate_count(bc);
        assert(count * self.boundary.numerator <= 3 * u64::MAX) by (nonlinear_arith)
            requires
                0 <= count <= 3,
                0 <= self.boundary.numerator <= u64::MAX,
        ;
        assert(0 <= count * self.boundary.numerator) by (nonlinear_arith)
            requires
                0 <= count,
                0 <= self.boundary.numerator,
        ;
        let threshold: u128 = (count as u128) * (self.boundary.numerator as u128);
        let u: u64 = rng.unit();
        if (u as u128) < threshold {
            let idx: usize = rng.index(count);
            proof {
                lemma_bytes_candidates_fit(*bc, idx as int);
            }
            let picked = bytes_candidate(bc, idx);
            assert(bytes_drawn(
                self.distributions,
                *bc,
                self.boundary,
                before,
                before,
                rng.handed(),
                u as int,
                picked@,
            ));
            return Ok(picked);
        }
        let len: usize = match self.many_draw_length(rng, bc.min_size, bc.max_size) {
            Ok(len) => len,
            Err(e) => {
                return Err(e);
            },
        };
        let ghost middle = rng.handed();
        let out = random_bytes(len, rng);
        assert(bytes_drawn(self.distributions, *bc, self.boundary, before, middle, rng.handed(), u as int, out@));
        Ok(out)
    }
}

/// Whether a text fits a kind.
pub open spec fn text_fits(k: StringKind, text: Seq<u32>) -> bool {
    k.min_size <= text.len() <= k.max_size && written_in(k.alphabet, text)
}

/// The short strings that a kind favours: its simplest one, the empty one, and
/// one and two of the simplest codepoint, as far as they fit.
pub open spec fn small_candidates(k: StringKind) -> Seq<Seq<u32>> {
    let cp = codepoint_at(k.alphabet, 0);
    let simplest = seq![Seq::new(k.min_size as nat, |i: int| cp)];
    let nothing = if k.min_size == 0 && k.max_size > 0 {
        seq![Seq::<u32>::empty()]
    } else {
        Seq::empty()
    };
    let one = if k.min_size <= 1 && k.max_size >= 1 {
        seq![seq![cp]]
    } else {
        Seq::empty()
    };
    let two = if k.min_size <= 2 && k.max_size >= 2 {
        seq![seq![cp, cp]]
    } else {
        Seq::empty()
    };
    simplest + nothing + one + two
}

/// The strings that a kind favours: short ones, and the constant texts that
/// fit it.
pub open spec fn string_candidates_of(k: StringKind) -> Seq<Seq<u32>> {
    small_candidates(k) + texts_codepoints(constant_texts()).filter(
        |text: Seq<u32>| text_fits(k, text),
    )
}

/// Every string that a kind favours fits it.
pub proof fn lemma_string_candidates_fit(k: StringKind, idx: int)
    requires
        k.min_size <= k.max_size,
        ranges_contain(k.alphabet, codepoint_at(k.alphabet, 0) as int),
        0 <= idx < string_candidates_of(k).len(),
    ensures
        text_fits(k, string_candidates_of(k)[idx]),
{
    let small = small_candidates(k);
    let all = texts_codepoints(constant_texts());
    let fits = |text: Seq<u32>| text_fits(k, text);
    let texts = all.filter(fits);
    if idx >= small.len() {
        all.lemma_filter_pred(fits, idx - small.len());
        assert(string_candidates_of(k)[idx] == texts[idx - small.len()]);
    } else {
        assert(string_candidates_of(k)[idx] == small[idx]);
    }
}

impl<D: Distributions> Sampler<D> {
    /// The strings that a kind favours.
    pub fn string_candidates(&self, sc: &mut StringChoice) -> (r: Result<
        Vec<Vec<u32>>,
        InternalError,
    >)
        requires
            old(sc).intervals.wf(),
        ensures
            final(sc)@ == old(sc)@,
            final(sc).intervals.wf(),
            match r {
                Ok(texts) => texts_view(texts@) == string_candidates_of(old(sc)@) && ranges_contain(
                    old(sc)@.alphabet,
                    codepoint_at(old(sc)@.alphabet, 0) as int,
                ),
                Err(_) => ranges_size(old(sc)@.alphabet) == 0,
            },
    {
        let ghost k = sc@;
        let cp: u32 = match sc.simplest_codepoint() {
            Ok(cp) => cp,
            Err(e) => {
                return Err(e);
            },
        };
        let simplest = match sc.simplest() {
            Ok(s) => s,
            Err(e) => {
                return Err(e);
            },
        };
        let min_size: usize = sc.min_size;
        let max_size: usize = sc.max_size;
        let mut out: Vec<Vec<u32>> = Vec::new();
        out.push(simplest);
        if min_size == 0 && max_size > 0 {
            out.push(Vec::new());
        }
        if min_size <= 1 && max_size >= 1 {
            let mut one: Vec<u32> = Vec::new();
            one.push(cp);
            assert(one@ =~= seq![cp]);
            out.push(one);
        }
        if min_size <= 2 && max_size >= 2 {
            let mut two: Vec<u32> = Vec::new();
            two.push(cp);
            two.push(cp);
            assert(two@ =~= seq![cp, cp]);
            out.push(two);
        }
        assert(texts_view(out@) =~= small_candidates(k));
        let contained = constants_in_alphabet(&mut sc.intervals);
        let pool = self.texts.texts();
        let ghost all = texts_codepoints(constant_texts());
        let ghost fits = |text: Seq<u32>| text_fits(k, text);
        let mut i: usize = 0;
        assert(all.take(0) =~= Seq::<Seq<u32>>::empty());
        assert(texts_view(pool@).len() == pool@.len());
        assert(Seq::<Seq<u32>>::empty().filter(fits) =~= Seq::<Seq<u32>>::empty()) by {
            reveal(Seq::filter);
        }
        assert(small_candidates(k) + Seq::<Seq<u32>>::empty() =~= small_candidates(k));
        while i < pool.len()
            invariant
                i <= pool@.len(),
                k.min_size == min_size,
                k.max_size == max_size,
                texts_view(pool@) == all,
                all == texts_codepoints(constant_texts()),
                contained@ == contained_constants(k.alphabet),
                fits == (|text: Seq<u32>| text_fits(k, text)),
                texts_view(out@) == small_candidates(k) + all.take(i as int).filter(fits),
            decreases pool@.len() - i,
        {
            proof {
                assert(texts_view(pool@).len() == pool@.len());
                assert(texts_view(pool@)[i as int] == pool@[i as int]@);
                assert(all.take(i + 1).drop_last() =~= all.take(i as int));
                assert(contained@[i as int] == written_in(k.alphabet, all[i as int]));
                reveal(Seq::filter);
            }
            let len: usize = pool[i].len();
            if contained[i] && min_size <= len && len <= max_size {
                let ghost before = texts_view(out@);
                let copy: Vec<u32> = pool[i].clone();
                assert(copy@ =~= pool@[i as int]@);
                out.push(copy);
                assert(texts_view(out@) =~= before.push(all[i as int]));
                assert(texts_view(out@) =~= small_candidates(k) + all.take(i + 1).filter(fits));
            }
            i = i + 1;
        }
        assert(all.take(i as int) =~= all);
        Ok(out)
    }
}

/// One in five, in units: how often a codepoint of a large alphabet is not
/// among the simplest ones.
pub const TAIL_SHARE: u64 = 1801439850948199;

/// How many codepoints of an alphabet count as its simplest ones.
pub const HEAD_SIZE: usize = 256;

/// The most codepoints that one string is written in.
pub const SUB_ALPHABET_SIZE: usize = 10;

/// Whether a text of a kind is written in a few codepoints of its alphabet.
pub open spec fn written_in_few(k: StringKind, text: Seq<u32>, few: Seq<u32>) -> bool {
    &&& text_fits(k, text)
    &&& written_in(k.alphabet, few)
    &&& 0 < few.len() <= SUB_ALPHABET_SIZE
    &&& few.len() <= ranges_size(k.alphabet)
    &&& forall|i: int| 0 <= i < text.len() ==> few.contains(#[trigger] text[i])
}

/// Whether a place in the shrink order of an alphabet of `size` codepoints is the
/// next number that is handed out. In a large alphabet, the one before it decides
/// whether the place is among the first ones.
pub open spec fn position_drawn(size: int, before: Seq<int>, after: Seq<int>, place: int) -> bool {
    &&& 0 <= place < size
    &&& if size > HEAD_SIZE {
        exists|share: int|
            after == #[trigger] before.push(share).push(place) && (share < TAIL_SHARE <==> place
                >= HEAD_SIZE)
    } else {
        after == before.push(place)
    }
}

/// A place in the shrink order of an alphabet of `size` codepoints, mostly
/// among the first ones.
fn pick_position(size: usize, rng: &mut EngineRng) -> (r: usize)
    requires
        size > 0,
    ensures
        r < size,
        position_drawn(size as int, old(rng).handed(), final(rng).handed(), r as int),
{
    if size > HEAD_SIZE {
        let share: u64 = rng.unit();
        let place: usize = if share < TAIL_SHARE {
            rng.range(HEAD_SIZE, size)
        } else {
            rng.range(0, HEAD_SIZE)
        };
        assert(rng.handed() == old(rng).handed().push(share as int).push(place as int));
        place
    } else {
        rng.range(0, size)
    }
}

/// Whether codepoints of an alphabet are drawn one by one, by their places in its
/// shrink order. The marks say what has been handed out before each of them, and
/// after the last.
pub open spec fn codepoints_drawn(
    alphabet: Seq<(u32, u32)>,
    marks: Seq<Seq<int>>,
    codepoints: Seq<u32>,
) -> bool {
    &&& marks.len() == codepoints.len() + 1
    &&& forall|i: int|
        0 <= i < codepoints.len() ==> position_drawn(
            ranges_size(alphabet) as int,
            marks[i],
            marks[i + 1],
            shrink_position(alphabet, #[trigger] codepoints[i] as int),
        )
}

/// One more codepoint is drawn.
proof fn lemma_one_more_codepoint(
    alphabet: Seq<(u32, u32)>,
    marks: Seq<Seq<int>>,
    after: Seq<int>,
    codepoints: Seq<u32>,
    cp: u32,
)
    requires
        codepoints_drawn(alphabet, marks, codepoints),
        position_drawn(
            ranges_size(alphabet) as int,
            marks.last(),
            after,
            shrink_position(alphabet, cp as int),
        ),
    ensures
        codepoints_drawn(alphabet, marks.push(after), codepoints.push(cp)),
{
    let (more, longer) = (marks.push(after), codepoints.push(cp));
    assert forall|i: int| 0 <= i < longer.len() implies position_drawn(
        ranges_size(alphabet) as int,
        more[i],
        more[i + 1],
        shrink_position(alphabet, #[trigger] longer[i] as int),
    ) by {
        if i < codepoints.len() {
            assert(longer[i] == codepoints[i]);
        }
    }
}

/// Whether a text is made of a few codepoints, by their indices.
pub open spec fn spelled(few: Seq<u32>, indices: Seq<int>, text: Seq<u32>) -> bool {
    &&& indices.len() == text.len()
    &&& forall|i: int|
        #![trigger text[i]]
        #![trigger indices[i]]
        0 <= i < text.len() ==> 0 <= indices[i] < few.len() && text[i] == few[indices[i]]
}

/// One more index spells one more codepoint.
proof fn lemma_one_more_index(few: Seq<u32>, indices: Seq<int>, text: Seq<u32>, at: int)
    requires
        spelled(few, indices, text),
        0 <= at < few.len(),
    ensures
        spelled(few, indices.push(at), text.push(few[at])),
{
    let (more, longer) = (indices.push(at), text.push(few[at]));
    assert forall|i: int|
        #![trigger longer[i]]
        #![trigger more[i]]
        0 <= i < longer.len() implies 0 <= more[i] < few.len() && longer[i] == few[more[i]] by {
        if i < text.len() {
            assert(longer[i] == text[i]);
            assert(more[i] == indices[i]);
        }
    }
}

/// Whether a string is drawn when `u` is handed out first: an index into the
/// favoured ones follows, or else how many codepoints it is written in, these
/// codepoints, a length, which ends at `middle`, and an index into the codepoints
/// for each place.
pub open spec fn string_drawn<D: Distributions>(
    d: D,
    k: StringKind,
    boundary: Probability,
    before: Seq<int>,
    after: Seq<int>,
    text: Seq<u32>,
    u: int,
    few: Seq<u32>,
    marks: Seq<Seq<int>>,
    middle: Seq<int>,
    indices: Seq<int>,
) -> bool {
    let favoured = string_candidates_of(k);
    &&& 0 <= u < UNIT_STEPS
    &&& if u < least(favoured.len() * boundary.numerator, PROBABILITY_ONE as int / 2) {
        exists|i: int| 0 <= i < favoured.len() && text == #[trigger] favoured[i] && after
            == before.push(u).push(i)
    } else {
        &&& written_in_few(k, text, few)
        &&& codepoints_drawn(k.alphabet, marks, few)
        &&& marks[0] == before.push(u).push(few.len() as int)
        &&& length_outcome(
            d,
            marks.last(),
            middle,
            k.min_size as int,
            k.max_size as int,
            text.len() as int,
        )
        &&& after == middle + indices
        &&& spelled(few, indices, text)
    }
}

/// Whether a string over an alphabet that is not empty is drawn.
pub open spec fn string_outcome<D: Distributions>(
    d: D,
    k: StringKind,
    boundary: Probability,
    before: Seq<int>,
    after: Seq<int>,
    text: Seq<u32>,
) -> bool {
    exists|u: int, few: Seq<u32>, marks: Seq<Seq<int>>, middle: Seq<int>, indices: Seq<int>|
        #[trigger] string_drawn(
            d,
            k,
            boundary,
            before,
            after,
            text,
            u,
            few,
            marks,
            middle,
            indices,
        )
}

impl<D: Distributions> Sampler<D> {
    /// A string of the kind: a favoured one, or one that is written in a few
    /// codepoints of the alphabet.
    pub fn biased_string_sample(&self, sc: &mut StringChoice, rng: &mut EngineRng) -> (r: Result<
        Vec<u32>,
        InternalError,
    >)
        requires
            old(sc).intervals.wf(),
            old(sc).min_size <= old(sc).max_size,
        ensures
            final(sc)@ == old(sc)@,
            final(sc).intervals.wf(),
            ranges_size(old(sc)@.alphabet) > 0 ==> (r matches Ok(s) && value_fits(
                KindView::String(old(sc)@),
                ValueView::String(s@),
            ) && string_outcome(
                self.distributions,
                old(sc)@,
                self.boundary,
                old(rng).handed(),
                final(rng).handed(),
                s@,
            )),
            ranges_size(old(sc)@.alphabet) == 0 ==> (r matches Ok(s) && s@ == Seq::<u32>::empty()
                && final(rng).handed() == old(rng).handed()),
    {
        let ghost k = sc@;
        let ghost before = rng.handed();
        let ghost none = Seq::<int>::empty();
        if sc.intervals.is_empty() {
            return Ok(Vec::new());
        }
        let candidates = match self.string_candidates(sc) {
            Ok(texts) => texts,
            Err(e) => {
                return Err(e);
            },
        };
        let count: usize = candidates.len();
        assert(texts_view(candidates@).len() == count);
        let threshold: u64 = nasty_threshold(count, self.boundary);
        let u: u64 = rng.unit();
        if u < threshold {
            let idx: usize = rng.index(count);
            proof {
                lemma_string_candidates_fit(k, idx as int);
                assert(texts_view(candidates@)[idx as int] == candidates@[idx as int]@);
            }
            let picked: Vec<u32> = candidates[idx].clone();
            assert(picked@ =~= candidates@[idx as int]@);
            assert(string_candidates_of(k)[idx as int] == picked@);
            assert(string_drawn(
                self.distributions,
                k,
                self.boundary,
                before,
                rng.handed(),
                picked@,
                u as int,
                Seq::empty(),
                Seq::empty(),
                none,
                none,
            ));
            return Ok(picked);
        }
        let size: usize = sc.intervals.len();
        let most: usize = if size < SUB_ALPHABET_SIZE {
            size
        } else {
            SUB_ALPHABET_SIZE
        };
        let width: usize = rng.range(1, most + 1);
        let ghost mut marks = seq![rng.handed()];
        let mut sub_alphabet: Vec<u32> = Vec::new();
        while sub_alphabet.len() < width
            invariant
                sub_alphabet@.len() <= width,
                codepoints_drawn(sc.intervals@, marks, sub_alphabet@),
                marks.last() == rng.handed(),
                marks[0] == before.push(u as int).push(width as int),
                size == ranges_size(sc.intervals@),
                size > 0,
                written_in(sc.intervals@, sub_alphabet@),
            decreases width - sub_alphabet@.len(),
        {
            let ghost fewer = sub_alphabet@;
            let place: usize = pick_position(size, rng);
            let cp: u32 = sc.intervals.char_in_shrink_order(place);
            sub_alphabet.push(cp);
            proof {
                lemma_one_more_codepoint(sc.intervals@, marks, rng.handed(), fewer, cp);
                marks = marks.push(rng.handed());
            }
        }
        let len: usize = match self.many_draw_length(rng, sc.min_size, sc.max_size) {
            Ok(len) => len,
            Err(e) => {
                return Err(e);
            },
        };
        let ghost middle = rng.handed();
        let ghost mut indices = none;
        assert(middle + indices =~= middle);
        let mut out: Vec<u32> = Vec::new();
        while out.len() < len
            invariant
                out@.len() <= len,
                rng.handed() == middle + indices,
                spelled(sub_alphabet@, indices, out@),
                sub_alphabet@.len() == width,
                width > 0,
                written_in(sc.intervals@, sub_alphabet@),
                written_in(sc.intervals@, out@),
                forall|i: int| 0 <= i < out@.len() ==> sub_alphabet@.contains(#[trigger] out@[i]),
            decreases len - out@.len(),
        {
            let at: usize = rng.index(sub_alphabet.len());
            assert(sub_alphabet@.contains(sub_alphabet@[at as int]));
            let ghost shorter = out@;
            out.push(sub_alphabet[at]);
            proof {
                let more = indices.push(at as int);
                assert((middle + indices).push(at as int) =~= middle + more);
                lemma_one_more_index(sub_alphabet@, indices, shorter, at as int);
                indices = more;
            }
        }
        assert(written_in_few(k, out@, sub_alphabet@));
        assert(string_drawn(
            self.distributions,
            k,
            self.boundary,
            before,
            rng.handed(),
            out@,
            u as int,
            sub_alphabet@,
            marks,
            middle,
            indices,
        ));
        Ok(out)
    }
}

/// From which byte on a boolean of probability `p` is true: two hundred and
/// fifty-six times the probability of `false`, rounded down, but at least one
/// and at most two hundred and fifty-five.
pub open spec fn first_true_byte(p: Probability) -> int {
    let share = (PROBABILITY_ONE - p.numerator) * 256 / PROBABILITY_ONE as int;
    if share < 1 {
        1
    } else if share > 255 {
        255
    } else {
        share
    }
}

/// What a byte of entropy makes of a boolean of probability `p`.
pub fn boolean_from_byte(p: Probability, byte: u8) -> (r: bool)
    requires
        p.numerator <= PROBABILITY_ONE,
    ensures
        r == (byte >= first_true_byte(p)),
{
    let share: u64 = (PROBABILITY_ONE - p.numerator) / 0x2000_0000_0000;
    let falsey: u64 = if share < 1 {
        1
    } else if share > 255 {
        255
    } else {
        share
    };
    byte as u64 >= falsey
}

/// What sixty-four bits of entropy make of a boolean of probability `p`.
pub fn boolean_from_bits(p: Probability, bits: u64) -> (r: bool)
    requires
        p.numerator < PROBABILITY_ONE,
    ensures
        r == ((bits as int) < p.numerator * 2048),
{
    bits < p.numerator * 2048
}

/// A boolean that is true with probability `p`, for one byte of entropy. The
/// probability is rounded to whole parts of two hundred and fifty-six, but
/// both values stay possible.
pub fn weighted_boolean_sample(p: Probability, rng: &mut EngineRng) -> (r: bool)
    requires
        p.numerator <= PROBABILITY_ONE,
    ensures
        exists|byte: int|
            final(rng).handed() == #[trigger] old(rng).handed().push(byte) && 0 <= byte < 256 && r
                == (byte >= first_true_byte(p)),
{
    let byte: u8 = rng.fill_byte();
    assert(rng.handed() == old(rng).handed().push(byte as int));
    boolean_from_byte(p, byte)
}

/// A boolean that is true with probability `p`, for sixty-four bits of
/// entropy.
pub fn weighted_boolean_sample_precise(p: Probability, rng: &mut EngineRng) -> (r: bool)
    requires
        p.numerator < PROBABILITY_ONE,
    ensures
        exists|bits: int|
            final(rng).handed() == #[trigger] old(rng).handed().push(bits) && 0 <= bits
                <= u64::MAX && r == (bits < p.numerator * 2048),
        p.numerator == 0 ==> !r,
{
    let bits: u64 = rng.next_u64();
    assert(rng.handed() == old(rng).handed().push(bits as int));
    boolean_from_bits(p, bits)
}

/// A boolean can come out either way for one byte of entropy, whatever its
/// probability.
pub proof fn lemma_both_bytes_possible(p: Probability)
    requires
        p.numerator <= PROBABILITY_ONE,
    ensures
        !(0u8 >= first_true_byte(p)),
        255u8 >= first_true_byte(p),
{
}

/// The sum of the first `n` weights.
pub open spec fn weight_below(weights: Seq<u32>, n: int) -> int
    decreases n,
{
    if n <= 0 {
        0
    } else {
        weight_below(weights, n - 1) + weights[n - 1]
    }
}

/// The index that `ticket` falls on when the indices share the numbers from
/// zero on by their weights.
pub fn index_at(weights: &Vec<u32>, ticket: u64) -> (r: usize)
    requires
        0 <= ticket < weight_below(weights@, weights@.len() as int),
    ensures
        r < weights@.len(),
        weight_below(weights@, r as int) <= ticket < weight_below(weights@, r + 1),
        weights@[r as int] > 0,
{
    let n: usize = weights.len();
    let mut i: usize = 0;
    let mut rest: u64 = ticket;
    while rest >= weights[i] as u64
        invariant
            n == weights@.len(),
            i < n,
            ticket < weight_below(weights@, weights@.len() as int),
            rest == ticket - weight_below(weights@, i as int),
        decreases weights@.len() - i,
    {
        rest = rest - weights[i] as u64;
        assert(weight_below(weights@, i + 1) == weight_below(weights@, i as int)
            + weights@[i as int]);
        i = i + 1;
    }
    assert(weight_below(weights@, i + 1) == weight_below(weights@, i as int) + weights@[i as int]);
    i
}

proof fn lemma_weights_rise(weights: Seq<u32>, a: int, b: int)
    requires
        0 <= a <= b,
    ensures
        0 <= weight_below(weights, a) <= weight_below(weights, b),
    decreases b,
{
    if b > 0 {
        if a < b {
            lemma_weights_rise(weights, a, b - 1);
        } else {
            lemma_weights_rise(weights, a - 1, b - 1);
        }
    }
}

/// The sum of all weights, where it fits.
pub fn total_weight(weights: &Vec<u32>) -> (r: Option<u64>)
    ensures
        match r {
            Some(total) => total == weight_below(weights@, weights@.len() as int),
            None => weight_below(weights@, weights@.len() as int) > u64::MAX,
        },
{
    let mut i: usize = 0;
    let mut total: u64 = 0;
    while i < weights.len()
        invariant
            i <= weights@.len(),
            total == weight_below(weights@, i as int),
        decreases weights@.len() - i,
    {
        proof {
            lemma_weights_rise(weights@, i + 1, weights@.len() as int);
        }
        match total.checked_add(weights[i] as u64) {
            Some(sum) => {
                total = sum;
            },
            None => {
                return None;
            },
        }
        i = i + 1;
    }
    Some(total)
}

/// A random index, each as likely as its weight says. An index of weight zero
/// never comes.
pub fn weighted_index_sample(weights: &Vec<u32>, rng: &mut EngineRng) -> (r: Option<usize>)
    ensures
        r is Some <==> 0 < weight_below(weights@, weights@.len() as int) <= u64::MAX,
        match r {
            Some(i) => i < weights@.len() && weights@[i as int] > 0 && exists|ticket: int|
                final(rng).handed() == #[trigger] old(rng).handed().push(ticket) && weight_below(
                    weights@,
                    i as int,
                ) <= ticket < weight_below(weights@, i + 1),
            None => final(rng).handed() == old(rng).handed(),
        },
{
    match total_weight(weights) {
        Some(total) => {
            if total == 0 {
                None
            } else {
                let ticket: u64 = rng.range_inclusive(0, total - 1);
                assert(rng.handed() == old(rng).handed().push(ticket as int));
                Some(index_at(weights, ticket))
            }
        },
        None => None,
    }
}

} // verus!
