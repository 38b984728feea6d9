//! `ans`: static Laplace-smoothed unigram entropy coding over token ids.
//!
//! rANS is a stack, so symbols are *pushed* in reverse to *pop* in forward order. The coder works
//! on fixed-point probabilities, one for each id of the vocabulary; turning a table's counts into
//! them is floating-point work and stands outside.
//!
//! The best ratio of the codecs but the slowest decode. Stored values do not use it: its codec id
//! is retired.

use vstd::prelude::*;

use crate::tables::{
    lemma_words_bytes_len, lemma_words_roundtrip, push_words, read_words, stored_words,
    words_bytes, TableError,
};
use crate::text::{decimal, push_decimal};
use crate::tokenizer::Tokenizer;

verus! {

/// One, in fixed point: the probabilities of a model add up to this.
pub const ONE: u32 = 16_777_216;

#[derive(Debug, Clone, PartialEq, Eq)]
pub enum AnsError {
    IdOutOfRange { id: u32, vocab: u32 },
    /// The payload length is not a whole number of coder words.
    NotWordAligned { len: usize },
    /// No model could be built from the table's counts.
    ModelBuild,
    /// The coder rejected the compressed buffer.
    Corrupt(String),
}

impl AnsError {
    /// The text of the error.
    pub open spec fn text(self) -> Seq<char> {
        match self {
            AnsError::IdOutOfRange { id, vocab } => "token id "@ + decimal(id as nat)
                + " is outside the table vocabulary ("@ + decimal(vocab as nat) + ")"@,
            AnsError::NotWordAligned { len } => "ANS payload is "@ + decimal(len as nat)
                + " bytes, not a multiple of 4"@,
            AnsError::ModelBuild => "could not build the ANS model from the table"@,
            AnsError::Corrupt(m) => "ANS payload is corrupt: "@ + m@,
        }
    }

    /// The text of the error.
    pub fn message(&self) -> (s: String)
        ensures
            s@ == self.text(),
    {
        match self {
            AnsError::IdOutOfRange { id, vocab } => {
                let mut s = "token id ".to_owned();
                push_decimal(&mut s, *id as u128);
                s.append(" is outside the table vocabulary (");
                push_decimal(&mut s, *vocab as u128);
                s.append(")");
                s
            },
            AnsError::NotWordAligned { len } => {
                let mut s = "ANS payload is ".to_owned();
                push_decimal(&mut s, *len as u128);
                s.append(" bytes, not a multiple of 4");
                s
            },
            AnsError::ModelBuild => "could not build the ANS model from the table".to_owned(),
            AnsError::Corrupt(m) => {
                let mut s = "ANS payload is corrupt: ".to_owned();
                s.append(m.as_str());
                s
            },
        }
    }
}

impl From<TableError> for AnsError {
    fn from(e: TableError) -> (r: Self) {
        AnsError::ModelBuild
    }
}

impl vstd::std_specs::convert::FromSpecImpl<TableError> for AnsError {
    open spec fn obeys_from_spec() -> bool {
        true
    }

    open spec fn from_spec(e: TableError) -> Self {
        AnsError::ModelBuild
    }
}

/// The sum of fixed-point probabilities.
pub open spec fn total(probabilities: Seq<u32>) -> nat
    decreases probabilities.len(),
{
    if probabilities.len() == 0 {
        0
    } else {
        total(probabilities.drop_last()) + probabilities.last() as nat
    }
}

/// Whether these are the probabilities of a model: two at least, none of them zero, and together
/// one.
pub open spec fn is_model(probabilities: Seq<u32>) -> bool {
    &&& probabilities.len() >= 2
    &&& forall|i: int| 0 <= i < probabilities.len() ==> #[trigger] probabilities[i] > 0
    &&& total(probabilities) == ONE
}

/// Whether the coder takes these words: they do not end in zero.
pub open spec fn decodable(words: Seq<u32>) -> bool {
    words.len() > 0 ==> words.last() != 0
}

/// The words that `ids` are coded as.
pub uninterp spec fn ans_words(probabilities: Seq<u32>, ids: Seq<u32>) -> Seq<u32>;

/// The `n` ids that `words` are decoded to.
pub uninterp spec fn ans_ids(probabilities: Seq<u32>, words: Seq<u32>, n: nat) -> Seq<u32>;

/// `constriction`'s `DefaultAnsCoder`, started empty: `encode_iid_symbols_reverse` and
/// `into_compressed`, with the categorical model that `from_nonzero_fixed_point_probabilities`
/// makes of the probabilities. That takes any nonzero probabilities that add up to one, and the
/// coder any symbol that has one. The words never end in zero, and decoding as many symbols as
/// were encoded gives the symbols back in their order.
#[verifier::external_body]
pub(crate) fn ans_encode(probabilities: &[u32], ids: &[u32]) -> (words: Vec<u32>)
    requires
        is_model(probabilities@),
        forall|i: int| 0 <= i < ids@.len() ==> #[trigger] ids@[i] < probabilities@.len(),
    ensures
        words@ == ans_words(probabilities@, ids@),
        decodable(words@),
        ans_ids(probabilities@, words@, ids@.len()) == ids@,
{
    let model = constriction::stream::model::DefaultContiguousCategoricalEntropyModel::from_nonzero_fixed_point_probabilities(probabilities, false).unwrap();
    let mut coder = constriction::stream::stack::DefaultAnsCoder::new();
    coder.encode_iid_symbols_reverse(ids.iter().map(|&id| id as usize), &model).unwrap();
    coder.into_compressed().unwrap()
}

/// `constriction`'s `DefaultAnsCoder::from_compressed` and `decode_iid_symbols`, with the same
/// model. Words that end in zero are refused; any other words decode to as many symbols of the
/// model as are asked for, if a vector can hold so many.
#[verifier::external_body]
pub(crate) fn ans_decode(probabilities: &[u32], words: Vec<u32>, n: usize) -> (r: Option<Vec<u32>>)
    requires
        is_model(probabilities@),
        decodable(words@) ==> n * 4 <= isize::MAX,
    ensures
        match r {
            Some(ids) => {
                &&& decodable(words@)
                &&& ids@ == ans_ids(probabilities@, words@, n as nat)
                &&& ids@.len() == n
                &&& forall|i: int| 0 <= i < n ==> #[trigger] ids@[i] < probabilities@.len()
            },
            None => !decodable(words@),
        },
{
    let model = constriction::stream::model::DefaultContiguousCategoricalEntropyModel::from_nonzero_fixed_point_probabilities(probabilities, false).unwrap();
    let mut coder = constriction::stream::stack::DefaultAnsCoder::from_compressed(words).ok()?;
    let symbols = constriction::stream::Decode::<24>::decode_iid_symbols(&mut coder, n, &model);
    Some(symbols.map(|s| s.unwrap() as u32).collect())
}

/// How often each token of a vocabulary occurs in a corpus.
#[derive(Debug, Clone, PartialEq, Eq)]
pub struct AnsTable {
    pub counts: Vec<u64>,
}

impl AnsTable {
    /// Count a corpus. Ids beyond the tokenizer's vocabulary are no tokens of it and do not count.
    pub fn train(ids: &[u32], tokenizer: Tokenizer) -> (t: Self)
        ensures
            t.counts@.len() == tokenizer.size(),
            forall|id: int|
                0 <= id < t.counts@.len() ==> #[trigger] t.counts@[id]
                    == crate::tables::rank::occurrences(ids@, id as u32),
    {
        let vocab: usize = tokenizer.vocab() as usize;
        let mut counts: Vec<u64> = vec![0u64; vocab];
        let mut i: usize = 0;
        assert(ids@.take(0) =~= seq![]);
        while i < ids.len()
            invariant
                i <= ids@.len(),
                vocab == tokenizer.size(),
                counts@.len() == vocab,
                forall|id: int|
                    0 <= id < vocab ==> #[trigger] counts@[id] == crate::tables::rank::occurrences(
                        ids@.take(i as int),
                        id as u32,
                    ) && counts@[id] <= i,
            decreases ids@.len() - i,
        {
            proof {
                assert(ids@.take(i + 1).drop_last() =~= ids@.take(i as int));
            }
            let id: usize = ids[i] as usize;
            if id < vocab {
                let n: u64 = counts[id];
                counts.set(id, n + 1);
            }
            i += 1;
        }
        assert(ids@.take(i as int) =~= ids@);
        AnsTable { counts }
    }

    /// The Laplace-smoothed weight of a token: one more than its count, so that a token the
    /// corpus never had is still encodable.
    pub fn weight(&self, id: usize) -> (w: u128)
        requires
            id < self.counts@.len(),
        ensures
            w == self.counts@[id as int] + 1,
    {
        self.counts[id] as u128 + 1
    }

    /// How many tokens the vocabulary has.
    pub fn vocab(&self) -> (n: usize)
        ensures
            n == self.counts@.len(),
    {
        self.counts.len()
    }
}

/// The fixed-point probabilities of the ids of a vocabulary.
#[derive(Debug, PartialEq, Eq)]
pub struct AnsModel {
    probabilities: Vec<u32>,
}

impl View for AnsModel {
    type V = Seq<u32>;

    closed spec fn view(&self) -> Seq<u32> {
        self.probabilities@
    }
}

impl AnsModel {
    #[verifier::type_invariant]
    spec fn wf(self) -> bool {
        is_model(self.probabilities@)
    }

    /// A model of these probabilities.
    pub fn new(probabilities: Vec<u32>) -> (r: Result<Self, AnsError>)
        ensures
            match r {
                Ok(m) => is_model(probabilities@) && m@ == probabilities@,
                Err(e) => !is_model(probabilities@) && e == AnsError::ModelBuild,
            },
    {
        if probabilities.len() < 2 {
            return Err(AnsError::ModelBuild);
        }
        let mut sum: u128 = 0;
        let mut i: usize = 0;
        assert(probabilities@.take(0) =~= seq![]);
        while i < probabilities.len()
            invariant
                i <= probabilities@.len(),
                sum == total(probabilities@.take(i as int)),
                sum <= i * u32::MAX,
                forall|j: int| 0 <= j < i ==> #[trigger] probabilities@[j] > 0,
            decreases probabilities@.len() - i,
        {
            if probabilities[i] == 0 {
                assert(!(probabilities@[i as int] > 0));
                return Err(AnsError::ModelBuild);
            }
            proof {
                assert(probabilities@.take(i + 1).drop_last() =~= probabilities@.take(i as int));
                assert(i * u32::MAX + u32::MAX == (i + 1) * u32::MAX) by (nonlinear_arith);
                assert(i * u32::MAX <= usize::MAX * u32::MAX) by (nonlinear_arith)
                    requires
                        i <= usize::MAX,
                ;
            }
            sum = sum + probabilities[i] as u128;
            i += 1;
        }
        assert(probabilities@.take(i as int) =~= probabilities@);
        if sum != ONE as u128 {
            return Err(AnsError::ModelBuild);
        }
        Ok(AnsModel { probabilities })
    }

    /// How many ids the model knows.
    pub fn vocab(&self) -> (n: u32)
        ensures
            n == self@.len(),
            is_model(self@),
    {
        proof {
            use_type_invariant(self);
            lemma_model_len(self@);
        }
        self.probabilities.len() as u32
    }
}

proof fn lemma_model_len(probabilities: Seq<u32>)
    requires
        forall|i: int| 0 <= i < probabilities.len() ==> #[trigger] probabilities[i] > 0,
    ensures
        probabilities.len() <= total(probabilities),
    decreases probabilities.len(),
{
    if probabilities.len() > 0 {
        assert(probabilities.last() == probabilities[probabilities.len() - 1]);
        lemma_model_len(probabilities.drop_last());
    }
}

/// Whether the model knows every id.
pub open spec fn all_known(model: Seq<u32>, ids: Seq<u32>) -> bool {
    forall|i: int| 0 <= i < ids.len() ==> #[trigger] ids[i] < model.len()
}

/// The payload that holds `ids`.
pub open spec fn ans_payload(model: Seq<u32>, ids: Seq<u32>) -> Seq<u8> {
    if ids.len() == 0 {
        seq![]
    } else {
        words_bytes(ans_words(model, ids))
    }
}

/// The words that a payload spells.
pub open spec fn payload_words(payload: Seq<u8>) -> Seq<u32> {
    stored_words(payload, 0, payload.len() / 4)
}

/// Encode token ids with the static model.
pub fn encode_ans(ids: &[u32], model: &AnsModel, out: &mut Vec<u8>) -> (r: Result<(), AnsError>)
    ensures
        match r {
            Ok(_) => {
                &&& all_known(model@, ids@)
                &&& final(out)@ == old(out)@ + ans_payload(model@, ids@)
                &&& readable_payload(model@, ids@)
            },
            Err(e) => {
                &&& exists|i: int|
                    {
                        &&& 0 <= i < ids@.len()
                        &&& all_known(model@, ids@.take(i))
                        &&& #[trigger] ids@[i] >= model@.len()
                        &&& e == AnsError::IdOutOfRange { id: ids@[i], vocab: model@.len() as u32 }
                    }
                &&& final(out)@ == old(out)@
            },
        },
{
    if ids.len() == 0 {
        assert(out@ =~= old(out)@ + ans_payload(model@, ids@));
        return Ok(());
    }
    let vocab = model.vocab();
    let mut i: usize = 0;
    while i < ids.len()
        invariant
            i <= ids@.len(),
            vocab == model@.len(),
            all_known(model@, ids@.take(i as int)),
            out@ == old(out)@,
        decreases ids@.len() - i,
    {
        let id = ids[i];
        if id >= vocab {
            assert(ids@[i as int] >= model@.len());
            return Err(AnsError::IdOutOfRange { id, vocab });
        }
        proof {
            let next = ids@.take(i + 1);
            assert forall|j: int| 0 <= j < next.len() implies #[trigger] next[j]
                < model@.len() by {
                if j < i {
                    assert(next[j] == ids@.take(i as int)[j]);
                }
            }
        }
        i += 1;
    }
    assert(ids@.take(i as int) =~= ids@);
    let words = ans_encode(model.probabilities.as_slice(), ids);
    proof {
        lemma_words_bytes_len(words@);
        lemma_words_roundtrip(seq![], words@, seq![]);
        assert(Seq::<u8>::empty() + words_bytes(words@) + Seq::<u8>::empty() =~= words_bytes(
            words@,
        ));
    }
    push_words(out, &words);
    Ok(())
}

/// Whether decoding the payload that holds `ids` succeeds and gives them back.
pub open spec fn readable_payload(model: Seq<u32>, ids: Seq<u32>) -> bool {
    let payload = ans_payload(model, ids);
    ids.len() > 0 ==> {
        &&& payload.len() % 4 == 0
        &&& decodable(payload_words(payload))
        &&& ans_ids(model, payload_words(payload), ids.len()) == ids
    }
}

/// Decode a payload back to token ids.
pub fn decode_ans(payload: &[u8], n: usize, model: &AnsModel) -> (r: Result<Vec<u32>, AnsError>)
    requires
        payload@.len() % 4 == 0 && decodable(payload_words(payload@)) ==> n * 4 <= isize::MAX,
    ensures
        ({
            let words = payload_words(payload@);
            if n == 0 {
                r matches Ok(ids) && ids@.len() == 0
            } else if payload@.len() % 4 != 0 {
                r == Err::<Vec<u32>, AnsError>(
                    AnsError::NotWordAligned { len: payload@.len() as usize },
                )
            } else if !decodable(words) {
                r matches Err(AnsError::Corrupt(m)) && m@ == "not a valid ANS buffer"@
            } else {
                r matches Ok(ids) && ids@ == ans_ids(model@, words, n as nat) && ids@.len() == n
                    && all_known(model@, ids@)
            }
        }),
{
    if n == 0 {
        return Ok(Vec::new());
    }
    if payload.len() % 4 != 0 {
        return Err(AnsError::NotWordAligned { len: payload.len() });
    }
    let words = read_words(payload, 0, payload.len() / 4);
    proof {
        use_type_invariant(model);
    }
    match ans_decode(model.probabilities.as_slice(), words, n) {
        Some(ids) => Ok(ids),
        None => Err(AnsError::Corrupt("not a valid ANS buffer".to_owned())),
    }
}

/// Probabilities one behind the other add up.
pub proof fn lemma_total_adds_up(a: Seq<u32>, b: Seq<u32>, p: u32)
    ensures
        total(a + b) == total(a) + total(b),
        total(seq![p]) == p,
        total(Seq::<u32>::empty()) == 0,
    decreases b.len(),
{
    reveal_with_fuel(total, 2);
    assert(seq![p].drop_last() =~= Seq::<u32>::empty());
    assert(seq![p].last() == p);
    if b.len() == 0 {
        assert(a + b =~= a);
    } else {
        lemma_total_adds_up(a, b.drop_last(), p);
        assert((a + b).drop_last() =~= a + b.drop_last());
        assert((a + b).last() == b.last());
    }
}

/// What makes a model, what the coder takes, and which ids a model knows.
pub proof fn lemma_model_means(probabilities: Seq<u32>, words: Seq<u32>, ids: Seq<u32>)
    ensures
        is_model(probabilities) <==> probabilities.len() >= 2 && total(probabilities) == 16_777_216
            && !probabilities.contains(0),
        decodable(words) <==> words.len() == 0 || words[words.len() - 1] != 0,
        all_known(probabilities, ids) <==> forall|i: int|
            0 <= i < ids.len() ==> (#[trigger] ids[i]) < probabilities.len(),
{
    if probabilities.contains(0) {
        let i = choose|i: int| 0 <= i < probabilities.len() && probabilities[i] == 0;
        assert(!(probabilities[i] > 0));
    } else {
        assert forall|i: int| 0 <= i < probabilities.len() implies #[trigger] probabilities[i]
            > 0 by {
            assert(probabilities.contains(probabilities[i]));
        }
    }
}

/// A payload is the coder's words, four bytes each with the lowest first, and is read as those.
pub proof fn lemma_ans_payload_layout(model: Seq<u32>, ids: Seq<u32>, payload: Seq<u8>, i: int)
    requires
        ids.len() > 0,
    ensures
        ans_payload(model, Seq::<u32>::empty()).len() == 0,
        ans_payload(model, ids).len() == 4 * ans_words(model, ids).len(),
        0 <= i < ans_words(model, ids).len() ==> crate::bytes::number_at(
            ans_payload(model, ids),
            4 * i,
        ) == ans_words(model, ids)[i],
        payload_words(payload).len() == payload.len() / 4,
        0 <= i < payload.len() / 4 ==> payload_words(payload)[i] == crate::bytes::number_at(
            payload,
            4 * i,
        ),
{
    lemma_words_bytes_len(ans_words(model, ids));
    if 0 <= i < ans_words(model, ids).len() {
        crate::tables::lemma_words_layout(ans_words(model, ids), i);
    }
    if 0 <= i < payload.len() / 4 {
        crate::tables::lemma_stored_words(payload, 0, payload.len() / 4, i);
    }
}

/// A payload that was encoded is whole words that the coder takes, and decodes to the ids it was
/// encoded from.
pub proof fn lemma_ans_roundtrip(model: Seq<u32>, ids: Seq<u32>)
    requires
        ids.len() > 0,
        readable_payload(model, ids),
    ensures
        ans_payload(model, ids).len() % 4 == 0,
        decodable(payload_words(ans_payload(model, ids))),
        ans_ids(model, payload_words(ans_payload(model, ids)), ids.len()) == ids,
{
}

/// Two errors of a kind read alike but for the details they give.
pub proof fn lemma_wording_of_ans_error(a: AnsError, b: AnsError)
    ensures
        a is IdOutOfRange && b is IdOutOfRange ==> crate::text::same_wording_twice(
            a.text(),
            (decimal(a->IdOutOfRange_id as nat), decimal(a->IdOutOfRange_vocab as nat)),
            b.text(),
            (decimal(b->IdOutOfRange_id as nat), decimal(b->IdOutOfRange_vocab as nat)),
        ),
        a is NotWordAligned && b is NotWordAligned ==> crate::text::same_wording(
            a.text(),
            decimal(a->NotWordAligned_len as nat),
            b.text(),
            decimal(b->NotWordAligned_len as nat),
        ),
        a is Corrupt && b is Corrupt ==> crate::text::same_wording(
            a.text(),
            a->Corrupt_0@,
            b.text(),
            b->Corrupt_0@,
        ),
{
    if a is IdOutOfRange && b is IdOutOfRange {
        assert(crate::text::worded_twice(
            a.text(),
            "token id "@,
            (decimal(a->IdOutOfRange_id as nat), decimal(a->IdOutOfRange_vocab as nat)),
            " is outside the table vocabulary ("@,
            ")"@,
        ));
        assert(crate::text::worded_twice(
            b.text(),
            "token id "@,
            (decimal(b->IdOutOfRange_id as nat), decimal(b->IdOutOfRange_vocab as nat)),
            " is outside the table vocabulary ("@,
            ")"@,
        ));
    }
    if a is NotWordAligned && b is NotWordAligned {
        assert(crate::text::worded(
            a.text(),
            "ANS payload is "@,
            decimal(a->NotWordAligned_len as nat),
            " bytes, not a multiple of 4"@,
        ));
        assert(crate::text::worded(
            b.text(),
            "ANS payload is "@,
            decimal(b->NotWordAligned_len as nat),
            " bytes, not a multiple of 4"@,
        ));
    }
    if a is Corrupt && b is Corrupt {
        assert(crate::text::worded(
            a.text(),
            "ANS payload is corrupt: "@,
            a->Corrupt_0@,
            Seq::<char>::empty(),
        ));
        assert(crate::text::worded(
            b.text(),
            "ANS payload is corrupt: "@,
            b->Corrupt_0@,
            Seq::<char>::empty(),
        ));
    }
}

} // verus!
