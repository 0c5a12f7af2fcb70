//! Cutting a batch of questions into requests.

use vstd::prelude::*;
use vstd::utf8::encode_utf8;

use crate::question::{question_text, Question};
#[allow(unused_imports)]
use crate::question::{QuestionView, MAX_INSTRUCTIONS};
use crate::sorted::{Duplicate, SortedMap};
#[allow(unused_imports)]
use crate::text::capped;

verus! {

/// The most dimensions that one classifier request may have.
pub const MAX_DIMENSIONS: usize = 20;

/// The most bytes of instructions that the dimensions of one classifier request
/// may have together. The service takes 16,000 characters.
pub const MAX_COMBINED_INSTRUCTIONS: usize = 15_000;

/// The questions of a batch, in the order of their keys.
pub type Batch = Seq<(Seq<char>, QuestionView)>;

/// What the chunks hold.
pub open spec fn batches(chunks: Seq<SortedMap<Question>>) -> Seq<Batch> {
    chunks.map_values(|c: SortedMap<Question>| c@)
}

/// The questions of all batches, one batch after the other.
pub open spec fn joined(chunks: Seq<Batch>) -> Batch
    decreases chunks.len(),
{
    if chunks.len() == 0 {
        Seq::empty()
    } else {
        chunks[0] + joined(chunks.drop_first())
    }
}

/// The bytes of instructions that a question takes.
pub open spec fn size(question: QuestionView) -> nat {
    encode_utf8(question.text()).len()
}

/// The bytes of instructions that the questions take together.
pub open spec fn combined_size(s: Batch) -> nat
    decreases s.len(),
{
    if s.len() == 0 {
        0
    } else {
        combined_size(s.drop_last()) + size(s.last().1)
    }
}

/// The characters of instructions that the questions take together.
pub open spec fn combined_chars(s: Batch) -> nat
    decreases s.len(),
{
    if s.len() == 0 {
        0
    } else {
        combined_chars(s.drop_last()) + s.last().1.text().len()
    }
}

/// Where a chunk that holds the first `n` questions of `s` ends: it grows by one
/// question while both caps allow it.
pub open spec fn grown(s: Batch, n: nat) -> nat
    decreases s.len() - n,
{
    if n < s.len() && n < MAX_DIMENSIONS && combined_size(s.take(n as int + 1))
        <= MAX_COMBINED_INSTRUCTIONS {
        grown(s, n + 1)
    } else {
        n
    }
}

/// The chunks of `s` for a classifier: each takes its first question, and then as
/// many more as fit.
pub open spec fn dimension_cut(s: Batch) -> Seq<Batch>
    decreases s.len(),
{
    if s.len() == 0 {
        Seq::empty()
    } else {
        proof {
            lemma_grown(s, 1);
        }
        let n = grown(s, 1) as int;
        seq![s.take(n)] + dimension_cut(s.skip(n))
    }
}

/// Consecutive chunks of `n` questions; the last may have fewer.
pub open spec fn even_cut(s: Batch, n: nat) -> Seq<Batch>
    decreases s.len(),
{
    if n == 0 || s.len() <= n {
        seq![s]
    } else {
        seq![s.take(n as int)] + even_cut(s.skip(n as int), n)
    }
}

/// Whether every question asks for a yes or a no.
pub open spec fn all_noul(s: Batch) -> bool {
    forall|i: int| 0 <= i < s.len() ==> (#[trigger] s[i]).1 is Noul
}

/// The chunks of `s` for a provider with a key. A batch is cut only where a limit
/// is set, the batch is over it, and every question is a yes-or-no question:
/// the probabilities of a choice depend on its whole option set, and no
/// independence is assumed across kinds.
pub open spec fn keyed_cut(s: Batch, limit: Option<usize>) -> Seq<Batch> {
    match limit {
        Some(n) => if s.len() > n && all_noul(s) {
            even_cut(s, n as nat)
        } else {
            seq![s]
        },
        None => seq![s],
    }
}

proof fn lemma_encoded_len(s: Seq<char>)
    ensures
        s.len() <= encode_utf8(s).len() <= 4 * s.len(),
    decreases s.len(),
{
    if s.len() > 0 {
        lemma_encoded_len(s.drop_first());
    }
}

/// A chunk grows to a place within the batch. If it grew at all it is within both
/// caps, and it stops only at the end or where the next question breaks a cap.
pub proof fn lemma_grown(s: Batch, n: nat)
    requires
        n <= s.len(),
    ensures
        n <= grown(s, n) <= s.len(),
        grown(s, n) == n || grown(s, n) <= MAX_DIMENSIONS,
        grown(s, n) == n || combined_size(s.take(grown(s, n) as int)) <= MAX_COMBINED_INSTRUCTIONS,
        grown(s, n) < s.len() ==> grown(s, n) >= MAX_DIMENSIONS || combined_size(
            s.take(grown(s, n) as int + 1),
        ) > MAX_COMBINED_INSTRUCTIONS,
    decreases s.len() - n,
{
    if n < s.len() && n < MAX_DIMENSIONS && combined_size(s.take(n as int + 1))
        <= MAX_COMBINED_INSTRUCTIONS {
        lemma_grown(s, n + 1);
    }
}

/// Cutting for a classifier loses no question, repeats none and keeps their
/// order.
pub proof fn dimension_cut_keeps_questions(s: Batch)
    ensures
        joined(dimension_cut(s)) == s,
    decreases s.len(),
{
    if s.len() > 0 {
        lemma_grown(s, 1);
        let n = grown(s, 1) as int;
        let cut = dimension_cut(s);
        dimension_cut_keeps_questions(s.skip(n));
        assert(cut.drop_first() =~= dimension_cut(s.skip(n)));
        assert(s =~= s.take(n) + s.skip(n));
    }
}

/// Every classifier chunk has at least one and at most twenty questions, and its
/// instructions stay within the combined cap in characters. In bytes they stay
/// within it too, unless the chunk is a single question.
pub proof fn dimension_cut_within_caps(s: Batch, i: int)
    requires
        0 <= i < dimension_cut(s).len(),
    ensures
        1 <= dimension_cut(s)[i].len() <= MAX_DIMENSIONS,
        combined_chars(dimension_cut(s)[i]) <= MAX_COMBINED_INSTRUCTIONS,
        dimension_cut(s)[i].len() == 1 || combined_size(dimension_cut(s)[i])
            <= MAX_COMBINED_INSTRUCTIONS,
    decreases s.len(),
{
    if s.len() > 0 {
        lemma_grown(s, 1);
        let n = grown(s, 1) as int;
        if i == 0 {
            let first = s.take(n);
            assert(dimension_cut(s)[0] == first);
            lemma_chars_within_bytes(first);
            if n == 1 {
                assert(first.drop_last() =~= Seq::empty());
                assert(combined_chars(first) == combined_chars(first.drop_last())
                    + first.last().1.text().len());
                assert(combined_chars(first.drop_last()) == 0);
                assert(first.last().1.text().len() <= MAX_INSTRUCTIONS);
            }
        } else {
            assert(dimension_cut(s)[i] == dimension_cut(s.skip(n))[i - 1]);
            dimension_cut_within_caps(s.skip(n), i - 1);
        }
    }
}

proof fn lemma_chars_within_bytes(s: Batch)
    ensures
        combined_chars(s) <= combined_size(s),
    decreases s.len(),
{
    if s.len() > 0 {
        lemma_chars_within_bytes(s.drop_last());
        lemma_encoded_len(s.last().1.text());
    }
}

/// No classifier chunk ends early: the first question of the next chunk would
/// break a cap.
pub proof fn dimension_cut_is_greedy(s: Batch, i: int)
    requires
        0 <= i < dimension_cut(s).len() - 1,
    ensures
        dimension_cut(s)[i + 1].len() > 0,
        dimension_cut(s)[i].len() == MAX_DIMENSIONS || combined_size(
            dimension_cut(s)[i].push(dimension_cut(s)[i + 1][0]),
        ) > MAX_COMBINED_INSTRUCTIONS,
    decreases s.len(),
{
    if s.len() > 0 {
        lemma_grown(s, 1);
        let n = grown(s, 1) as int;
        let rest = s.skip(n);
        dimension_cut_within_caps(s, i + 1);
        dimension_cut_within_caps(s, i);
        if i == 0 {
            lemma_grown(rest, 1);
            assert(dimension_cut(s)[1] == dimension_cut(rest)[0]);
            assert(dimension_cut(rest)[0] == rest.take(grown(rest, 1) as int));
            assert(dimension_cut(s)[0].push(dimension_cut(s)[1][0]) =~= s.take(n + 1));
        } else {
            assert(dimension_cut(s)[i] == dimension_cut(rest)[i - 1]);
            assert(dimension_cut(s)[i + 1] == dimension_cut(rest)[i]);
            dimension_cut_is_greedy(rest, i - 1);
        }
    }
}

/// Cutting evenly loses no question, repeats none and keeps their order.
proof fn lemma_even_cut_joined(s: Batch, n: nat)
    ensures
        joined(even_cut(s, n)) == s,
    decreases s.len(),
{
    if n == 0 || s.len() <= n {
        assert(seq![s].drop_first() =~= Seq::<Batch>::empty());
        assert(joined(seq![s].drop_first()) == Seq::<(Seq<char>, QuestionView)>::empty());
        assert(joined(seq![s]) =~= s);
    } else {
        let cut = even_cut(s, n);
        lemma_even_cut_joined(s.skip(n as int), n);
        assert(cut.drop_first() =~= even_cut(s.skip(n as int), n));
        assert(s =~= s.take(n as int) + s.skip(n as int));
    }
}

/// Cutting for a provider with a key loses no question, repeats none and keeps
/// their order.
pub proof fn keyed_cut_keeps_questions(s: Batch, limit: Option<usize>)
    ensures
        joined(keyed_cut(s, limit)) == s,
{
    lemma_even_cut_joined(s, 0);
    if let Some(n) = limit {
        lemma_even_cut_joined(s, n as nat);
    }
}

proof fn lemma_even_cut_sizes(s: Batch, n: nat, i: int)
    requires
        n > 0,
        s.len() > 0,
        0 <= i < even_cut(s, n).len(),
    ensures
        1 <= even_cut(s, n)[i].len() <= n,
        i < even_cut(s, n).len() - 1 ==> even_cut(s, n)[i].len() == n,
    decreases s.len(),
{
    if s.len() > n && i > 0 {
        assert(even_cut(s, n)[i] == even_cut(s.skip(n as int), n)[i - 1]);
        lemma_even_cut_sizes(s.skip(n as int), n, i - 1);
    }
}

/// A batch of yes-or-no questions over the limit goes out in chunks that are full
/// but for the last.
pub proof fn keyed_cut_fills_chunks(s: Batch, n: usize, i: int)
    requires
        n > 0,
        s.len() > n,
        all_noul(s),
        0 <= i < keyed_cut(s, Some(n)).len(),
    ensures
        1 <= keyed_cut(s, Some(n))[i].len() <= n,
        i < keyed_cut(s, Some(n)).len() - 1 ==> keyed_cut(s, Some(n))[i].len() == n,
{
    lemma_even_cut_sizes(s, n as nat, i);
}

/// Without a limit, within it, or with a choice among the questions, a batch
/// goes out whole.
pub proof fn other_batches_are_not_cut(s: Batch, limit: Option<usize>)
    requires
        limit matches Some(n) ==> s.len() <= n || !all_noul(s),
    ensures
        keyed_cut(s, limit) == seq![s],
{
}

/// Cuts questions into classifier requests: at most twenty dimensions each, and
/// the combined instructions within their cap.
pub fn dimension_chunks(questions: &SortedMap<Question>) -> (r: Vec<SortedMap<Question>>)
    ensures
        batches(r@) == dimension_cut(questions@),
{
    let mut chunks: Vec<SortedMap<Question>> = Vec::new();
    let ghost s = questions@;
    let n: usize = questions.len();
    let mut start: usize = 0;
    let mut combined: usize = 0;
    let mut i: usize = 0;
    assert(s.skip(0) =~= s);
    assert(batches(chunks@) + dimension_cut(s.skip(0)) =~= dimension_cut(s));
    while i < n
        invariant
            s == questions@,
            n == s.len(),
            start <= i <= n,
            i == start ==> i == 0 && combined == 0,
            i - start <= MAX_DIMENSIONS,
            combined == combined_size(s.skip(start as int).take(i - start)),
            combined <= MAX_COMBINED_INSTRUCTIONS || (i - start == 1 && combined <= 4 * MAX_INSTRUCTIONS),
            i > start ==> grown(s.skip(start as int), 1) == grown(
                s.skip(start as int),
                (i - start) as nat,
            ),
            batches(chunks@) + dimension_cut(s.skip(start as int)) == dimension_cut(s),
        decreases n - i,
    {
        let ghost rest = s.skip(start as int);
        let text = question_text(questions.value(i));
        proof {
            lemma_encoded_len(text@);
            assert(text@ == s[i as int].1.text());
        }
        let added: usize = text.as_str().len();
        assert(added == size(s[i as int].1));
        assert(rest.take(i - start + 1).drop_last() =~= rest.take(i - start));
        assert(rest.take(i - start + 1).last() == s[i as int]);
        if i > start && (i - start >= MAX_DIMENSIONS || combined + added
            > MAX_COMBINED_INSTRUCTIONS) {
            let chunk = questions.range(start, i);
            proof {
                assert(grown(rest, (i - start) as nat) == i - start);
                assert(chunk@ =~= rest.take(i - start));
                assert(rest.skip(i - start) =~= s.skip(i as int));
                assert(batches(chunks@.push(chunk)) =~= batches(chunks@).push(chunk@));
                assert(batches(chunks@).push(chunk@) + dimension_cut(s.skip(i as int)) =~= batches(
                    chunks@,
                ) + dimension_cut(rest));
            }
            chunks.push(chunk);
            start = i;
            combined = 0;
        }
        let ghost next = s.skip(start as int);
        assert(next.take(i - start + 1).drop_last() =~= next.take(i - start));
        assert(next.take(i - start + 1).last() == s[i as int]);
        if i == start {
            assert(next.take(0) =~= Seq::empty());
            assert(combined_size(next.take(i - start)) == 0);
        }
        combined = combined + added;
        i = i + 1;
    }
    if start < n {
        let ghost rest = s.skip(start as int);
        let chunk = questions.range(start, n);
        proof {
            assert(grown(rest, (n - start) as nat) == n - start);
            assert(chunk@ =~= rest.take(n - start));
            assert(rest.skip(n - start) =~= Seq::empty());
            assert(dimension_cut(rest.skip(n - start)) =~= Seq::<Batch>::empty());
            assert(dimension_cut(rest) =~= seq![rest.take(n - start)]);
            assert(batches(chunks@.push(chunk)) =~= batches(chunks@).push(chunk@));
            assert(batches(chunks@).push(chunk@) =~= batches(chunks@) + dimension_cut(rest));
        }
        chunks.push(chunk);
    } else {
        assert(batches(chunks@) + dimension_cut(s.skip(start as int)) =~= batches(chunks@));
    }
    chunks
}

/// Whether every question asks for a yes or a no.
fn is_all_noul(questions: &SortedMap<Question>) -> (b: bool)
    ensures
        b == all_noul(questions@),
{
    let mut i: usize = 0;
    while i < questions.len()
        invariant
            i <= questions@.len(),
            forall|j: int| 0 <= j < i ==> (#[trigger] questions@[j]).1 is Noul,
        decreases questions@.len() - i,
    {
        match questions.value(i) {
            Question::Noul { .. } => {},
            Question::Choice { .. } => {
                assert(!(questions@[i as int].1 is Noul));
                return false;
            },
        }
        i = i + 1;
    }
    true
}

fn whole(questions: &SortedMap<Question>) -> (r: Vec<SortedMap<Question>>)
    ensures
        batches(r@) == seq![questions@],
{
    let mut r: Vec<SortedMap<Question>> = Vec::new();
    r.push(questions.duplicate());
    assert(batches(r@) =~= seq![questions@]);
    r
}

/// Cuts questions for a provider with a key, as `keyed_cut` says.
pub fn keyed_chunks(questions: &SortedMap<Question>, limit: Option<usize>) -> (r: Vec<
    SortedMap<Question>,
>)
    requires
        limit != Some(0usize),
    ensures
        batches(r@) == keyed_cut(questions@, limit),
{
    let size: usize = match limit {
        None => {
            return whole(questions);
        },
        Some(n) => n,
    };
    let n: usize = questions.len();
    if n <= size || !is_all_noul(questions) {
        return whole(questions);
    }
    let ghost s = questions@;
    let mut chunks: Vec<SortedMap<Question>> = Vec::new();
    let mut start: usize = 0;
    assert(s.skip(0) =~= s);
    assert(batches(chunks@) + even_cut(s.skip(0), size as nat) =~= even_cut(s, size as nat));
    while n - start > size
        invariant
            s == questions@,
            n == s.len(),
            0 < size,
            start < n,
            batches(chunks@) + even_cut(s.skip(start as int), size as nat) == even_cut(
                s,
                size as nat,
            ),
        decreases n - start,
    {
        let ghost rest = s.skip(start as int);
        let chunk = questions.range(start, start + size);
        proof {
            assert(chunk@ =~= rest.take(size as int));
            assert(rest.skip(size as int) =~= s.skip(start + size));
            assert(batches(chunks@.push(chunk)) =~= batches(chunks@).push(chunk@));
            assert(batches(chunks@).push(chunk@) + even_cut(s.skip(start + size), size as nat)
                =~= batches(chunks@) + even_cut(rest, size as nat));
        }
        chunks.push(chunk);
        start = start + size;
    }
    let chunk = questions.range(start, n);
    proof {
        let rest = s.skip(start as int);
        assert(chunk@ =~= rest);
        assert(batches(chunks@.push(chunk)) =~= batches(chunks@).push(chunk@));
        assert(batches(chunks@).push(chunk@) =~= batches(chunks@) + even_cut(rest, size as nat));
    }
    chunks.push(chunk);
    chunks
}

/// A batch with a choice at any place goes out whole, whatever the limit is.
pub proof fn choice_keeps_a_batch_whole(s: Batch, limit: Option<usize>, i: int)
    requires
        0 <= i < s.len(),
        s[i].1 is Choice,
    ensures
        keyed_cut(s, limit) == seq![s],
{
}

/// Without a limit, and up to the limit, a batch goes out whole.
pub proof fn small_batch_is_whole(s: Batch, limit: Option<usize>)
    requires
        limit matches Some(n) ==> s.len() <= n,
    ensures
        keyed_cut(s, limit) == seq![s],
{
}

/// A batch over the limit in which no question is a choice goes out in more than one
/// chunk, each with as many questions as the limit allows, but for the last with what is
/// left.
pub proof fn long_batch_without_choice_is_cut(s: Batch, n: usize)
    requires
        n > 0,
        s.len() > n,
        forall|i: int| 0 <= i < s.len() ==> !((#[trigger] s[i]).1 is Choice),
    ensures
        keyed_cut(s, Some(n)).len() > 1,
        forall|i: int|
            0 <= i < keyed_cut(s, Some(n)).len() ==> 1 <= (#[trigger] keyed_cut(
                s,
                Some(n),
            )[i]).len() <= n,
        forall|i: int|
            0 <= i < keyed_cut(s, Some(n)).len() - 1 ==> (#[trigger] keyed_cut(
                s,
                Some(n),
            )[i]).len() == n,
        joined(keyed_cut(s, Some(n))) == s,
{
    let cut = keyed_cut(s, Some(n));
    assert(cut == even_cut(s, n as nat));
    assert forall|i: int| 0 <= i < cut.len() implies 1 <= (#[trigger] cut[i]).len() <= n && (i
        < cut.len() - 1 ==> cut[i].len() == n) by {
        lemma_even_cut_sizes(s, n as nat, i);
    }
    keyed_cut_keeps_questions(s, Some(n));
    if cut.len() == 1 {
        assert(cut.drop_first() =~= Seq::<Batch>::empty());
        assert(joined(cut.drop_first()) == Seq::<(Seq<char>, QuestionView)>::empty());
        assert(joined(cut) =~= cut[0]);
    } else if cut.len() == 0 {
        assert(joined(cut).len() == 0);
    }
}

/// Joining batches puts the questions of each behind those of the batches before it.
pub proof fn joining_puts_batches_in_line(chunks: Seq<Batch>, more: Batch)
    ensures
        joined(Seq::empty()) == Seq::<(Seq<char>, QuestionView)>::empty(),
        joined(chunks.push(more)) == joined(chunks) + more,
    decreases chunks.len(),
{
    let all = chunks.push(more);
    if chunks.len() == 0 {
        assert(all.drop_first() =~= Seq::<Batch>::empty());
        assert(joined(all.drop_first()) == Seq::<(Seq<char>, QuestionView)>::empty());
        assert(joined(all) =~= joined(chunks) + more);
    } else {
        joining_puts_batches_in_line(chunks.drop_first(), more);
        assert(all.drop_first() =~= chunks.drop_first().push(more));
        assert(all[0] == chunks[0]);
        assert(joined(all) =~= joined(chunks) + more);
    }
}

/// A question counts with the bytes, or with the characters, of its words.
pub proof fn sizes_add_up(s: Batch, key: Seq<char>, question: QuestionView)
    ensures
        combined_size(Seq::empty()) == 0,
        combined_size(s.push((key, question))) == combined_size(s) + encode_utf8(
            question.text(),
        ).len(),
        combined_chars(Seq::empty()) == 0,
        combined_chars(s.push((key, question))) == combined_chars(s) + question.text().len(),
{
    assert(s.push((key, question)).drop_last() =~= s);
}

/// The classifier cut in numbers: every chunk has one to 20 questions, and where it has
/// more than one, at most 15,000 bytes of words. It takes all that fit: the first question
/// of the next chunk would be one too many, or too long. All questions are there, in
/// order.
pub proof fn classifier_cut_in_numbers(s: Batch)
    ensures
        joined(dimension_cut(s)) == s,
        forall|i: int|
            0 <= i < dimension_cut(s).len() ==> {
                let chunk = #[trigger] dimension_cut(s)[i];
                &&& 1 <= chunk.len() <= 20
                &&& chunk.len() > 1 ==> combined_size(chunk) <= 15000
                &&& i + 1 < dimension_cut(s).len() ==> chunk.len() == 20 || combined_size(
                    chunk.push(dimension_cut(s)[i + 1][0]),
                ) > 15000
            },
{
    dimension_cut_keeps_questions(s);
    assert forall|i: int| 0 <= i < dimension_cut(s).len() implies {
        let chunk = #[trigger] dimension_cut(s)[i];
        &&& 1 <= chunk.len() <= 20
        &&& chunk.len() > 1 ==> combined_size(chunk) <= 15000
        &&& i + 1 < dimension_cut(s).len() ==> chunk.len() == 20 || combined_size(
            chunk.push(dimension_cut(s)[i + 1][0]),
        ) > 15000
    } by {
        dimension_cut_within_caps(s, i);
        if i + 1 < dimension_cut(s).len() {
            dimension_cut_is_greedy(s, i);
        }
    }
}

/// Chunks are seen one by one, in order.
pub proof fn chunk_views_show_all(chunks: Seq<SortedMap<Question>>, i: int)
    ensures
        batches(chunks).len() == chunks.len(),
        0 <= i < chunks.len() ==> batches(chunks)[i] == chunks[i]@,
{
}

} // verus!
