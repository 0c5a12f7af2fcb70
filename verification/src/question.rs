//! Typed questions, and the words in which a classifier is asked them.

use vstd::prelude::*;

use crate::json::{render, Json};
#[allow(unused_imports)]
use crate::json::{json_text, JsonView};
use crate::sorted::{Duplicate, SortedMap};
use crate::text::cap;
#[allow(unused_imports)]
use crate::text::capped;

verus! {

/// The most characters of instructions that one dimension may have.
pub const MAX_INSTRUCTIONS: usize = 4_000;

/// The most characters that the classified input may have.
pub const MAX_INPUT_CHARS: usize = 32_000;

/// What counts as a yes and what counts as a no.
#[derive(Debug)]
pub struct NoulCriteria {
    pub yes: String,
    pub no: String,
}

/// What a [`NoulCriteria`] holds.
pub struct NoulCriteriaView {
    pub yes: Seq<char>,
    pub no: Seq<char>,
}

impl View for NoulCriteria {
    type V = NoulCriteriaView;

    open spec fn view(&self) -> NoulCriteriaView {
        NoulCriteriaView { yes: self.yes@, no: self.no@ }
    }
}

impl Duplicate for NoulCriteria {
    fn duplicate(&self) -> (r: Self) {
        NoulCriteria { yes: self.yes.clone(), no: self.no.clone() }
    }
}

impl Clone for NoulCriteria {
    fn clone(&self) -> (r: Self)
        ensures
            r@ == self@,
    {
        self.duplicate()
    }
}

/// A question about a state: yes or no, or a choice among named options.
#[derive(Debug)]
#[allow(inconsistent_fields)]
pub enum Question {
    Noul { instructions: Json, criteria: Option<NoulCriteria> },
    Choice {
        instructions: Json,
        /// Option name to description, or to null when the name says enough.
        criteria: SortedMap<Json>,
    },
}

/// What a [`Question`] holds.
#[allow(inconsistent_fields)]
pub enum QuestionView {
    Noul { instructions: JsonView, criteria: Option<NoulCriteriaView> },
    Choice { instructions: JsonView, criteria: Seq<(Seq<char>, JsonView)> },
}

impl View for Question {
    type V = QuestionView;

    open spec fn view(&self) -> QuestionView {
        match self {
            Question::Noul { instructions, criteria } => QuestionView::Noul {
                instructions: instructions@,
                criteria: match criteria {
                    Some(c) => Some(c@),
                    None => None,
                },
            },
            Question::Choice { instructions, criteria } => QuestionView::Choice {
                instructions: instructions@,
                criteria: criteria@,
            },
        }
    }
}

impl Duplicate for Question {
    fn duplicate(&self) -> (r: Self) {
        match self {
            Question::Noul { instructions, criteria } => Question::Noul {
                instructions: instructions.duplicate(),
                criteria: match criteria {
                    Some(c) => Some(c.duplicate()),
                    None => None,
                },
            },
            Question::Choice { instructions, criteria } => Question::Choice {
                instructions: instructions.duplicate(),
                criteria: criteria.duplicate(),
            },
        }
    }
}

impl Clone for Question {
    fn clone(&self) -> (r: Self)
        ensures
            r@ == self@,
    {
        self.duplicate()
    }
}

impl QuestionView {
    /// The labels a classifier chooses from: yes and no, or the option names in
    /// order.
    pub open spec fn labels(self) -> Seq<Seq<char>> {
        match self {
            QuestionView::Noul { .. } => seq!["yes"@, "no"@],
            QuestionView::Choice { criteria, .. } => criteria.map_values(
                |e: (Seq<char>, JsonView)| e.0,
            ),
        }
    }

    /// The instructions as the asker wrote them.
    pub open spec fn instructions(self) -> JsonView {
        match self {
            QuestionView::Noul { instructions, .. } => instructions,
            QuestionView::Choice { instructions, .. } => instructions,
        }
    }

    /// The criteria in words, as they follow the instructions.
    pub open spec fn detail(self) -> Seq<char> {
        match self {
            QuestionView::Noul { criteria: Some(c), .. } => "\n\n\"yes\" means: "@ + c.yes
                + "\n\"no\" means: "@ + c.no,
            QuestionView::Noul { criteria: None, .. } => Seq::empty(),
            QuestionView::Choice { criteria, .. } => "\n\nOptions:"@ + option_lines(criteria),
        }
    }

    /// The one instructions text that a classifier gets for the question.
    pub open spec fn text(self) -> Seq<char> {
        capped(self.instructions().shown() + self.detail(), MAX_INSTRUCTIONS as nat)
    }
}

/// The line of one option: its name, and its description unless that is null.
pub open spec fn option_line(name: Seq<char>, description: JsonView) -> Seq<char> {
    match description {
        JsonView::Null => "\n- "@ + name,
        _ => "\n- "@ + name + ": "@ + description.shown(),
    }
}

/// The lines of all options, in order.
pub open spec fn option_lines(options: Seq<(Seq<char>, JsonView)>) -> Seq<char>
    decreases options.len(),
{
    if options.len() == 0 {
        Seq::empty()
    } else {
        option_lines(options.drop_last()) + option_line(options.last().0, options.last().1)
    }
}

/// The serialized state is the input that the model looks at, capped at what the
/// classifier takes.
pub fn state_text(state: &serde_json::Value) -> (r: String)
    ensures
        r@ == capped(json_text(*state), MAX_INPUT_CHARS as nat),
        r@.len() <= MAX_INPUT_CHARS,
{
    input_text(&render(state))
}

/// The classified input that stands for a state with the JSON text `json`.
pub fn input_text(json: &String) -> (r: String)
    ensures
        r@ == capped(json@, MAX_INPUT_CHARS as nat),
{
    cap(json.as_str(), MAX_INPUT_CHARS)
}

/// The labels that a classifier chooses from: a yes-or-no question is classified
/// over yes and no, and the share of yes is the probability.
pub fn labels_of(question: &Question) -> (r: Vec<&str>)
    ensures
        r@.map_values(|s: &str| s@) == question@.labels(),
{
    match question {
        Question::Noul { .. } => {
            let r: Vec<&str> = vec!["yes", "no"];
            assert(r@.map_values(|s: &str| s@) =~= question@.labels());
            r
        },
        Question::Choice { criteria, .. } => {
            let mut r: Vec<&str> = Vec::new();
            let mut i: usize = 0;
            while i < criteria.len()
                invariant
                    i <= criteria@.len(),
                    r@.len() == i,
                    forall|j: int| 0 <= j < i ==> (#[trigger] r@[j])@ == criteria@[j].0,
                decreases criteria@.len() - i,
            {
                r.push(criteria.key(i).as_str());
                i = i + 1;
            }
            assert(r@.map_values(|s: &str| s@) =~= question@.labels());
            r
        },
    }
}

fn append_options(out: &mut String, options: &SortedMap<Json>)
    ensures
        final(out)@ == old(out)@ + option_lines(options@),
{
    let mut i: usize = 0;
    let ghost before = out@;
    assert(out@ =~= before + option_lines(options@.take(0)));
    while i < options.len()
        invariant
            i <= options@.len(),
            out@ == before + option_lines(options@.take(i as int)),
        decreases options@.len() - i,
    {
        let ghost so_far = out@;
        out.append("\n- ");
        out.append(options.key(i).as_str());
        match options.value(i) {
            Json::Null => {},
            description => {
                out.append(": ");
                out.append(description.show().as_str());
            },
        }
        assert(out@ =~= so_far + option_line(options@[i as int].0, options@[i as int].1));
        assert(options@.take(i + 1).drop_last() =~= options@.take(i as int));
        assert(out@ =~= before + option_lines(options@.take(i + 1)));
        i = i + 1;
    }
    assert(options@.take(i as int) =~= options@);
}

/// Folds the criteria of a question into its instructions: a classifier takes one
/// instructions text per dimension.
pub fn question_text(question: &Question) -> (r: String)
    ensures
        r@ == question@.text(),
        r@.len() <= MAX_INSTRUCTIONS,
{
    let mut text: String;
    match question {
        Question::Noul { instructions, criteria } => {
            text = instructions.show();
            match criteria {
                Some(c) => {
                    text.append("\n\n\"yes\" means: ");
                    text.append(c.yes.as_str());
                    text.append("\n\"no\" means: ");
                    text.append(c.no.as_str());
                },
                None => {},
            }
        },
        Question::Choice { instructions, criteria } => {
            text = instructions.show();
            text.append("\n\nOptions:");
            append_options(&mut text, criteria);
        },
    }
    assert(text@ =~= question@.instructions().shown() + question@.detail());
    cap(text.as_str(), MAX_INSTRUCTIONS)
}

/// A yes-or-no question is classified over yes and no, and a choice over the names of its
/// options, one label for each in their order.
pub proof fn labels_are_the_possible_answers(question: QuestionView)
    ensures
        question is Noul ==> {
            &&& question.labels().len() == 2
            &&& question.labels()[0] == "yes"@
            &&& question.labels()[1] == "no"@
        },
        question matches QuestionView::Choice { criteria, .. } ==> {
            &&& question.labels().len() == criteria.len()
            &&& forall|i: int|
                0 <= i < criteria.len() ==> (#[trigger] criteria[i]).0 == question.labels()[i]
        },
{
}

/// The words for a classifier are the instructions, followed by what counts as a yes and
/// as a no or by the options, and cut after 4,000 characters.
pub proof fn words_are_instructions_and_criteria(question: QuestionView, i: int)
    ensures
        ({
            let whole = match question {
                QuestionView::Noul { instructions, criteria: None } => instructions.shown(),
                QuestionView::Noul { instructions, criteria: Some(c) } => instructions.shown()
                    + "\n\n\"yes\" means: "@ + c.yes + "\n\"no\" means: "@ + c.no,
                QuestionView::Choice { instructions, criteria } => instructions.shown()
                    + "\n\nOptions:"@ + option_lines(criteria),
            };
            &&& question.text().len() <= 4000
            &&& question.text().len() == 4000 || question.text().len() == whole.len()
            &&& question.text().len() <= whole.len()
            &&& 0 <= i < question.text().len() ==> question.text()[i] == whole[i]
        }),
{
    let shown = question.instructions().shown();
    match question {
        QuestionView::Noul { criteria: None, .. } => {
            assert(shown + Seq::<char>::empty() =~= shown);
        },
        QuestionView::Noul { criteria: Some(c), .. } => {
            assert(shown + question.detail() =~= shown + "\n\n\"yes\" means: "@ + c.yes
                + "\n\"no\" means: "@ + c.no);
        },
        QuestionView::Choice { criteria, .. } => {
            assert(shown + question.detail() =~= shown + "\n\nOptions:"@ + option_lines(
                criteria,
            ));
        },
    }
}

/// Each option has a line of its own with its name, and its description behind a colon
/// unless that is null. The lines stand in the order of the options.
pub proof fn options_have_a_line_each(
    options: Seq<(Seq<char>, JsonView)>,
    name: Seq<char>,
    description: Seq<char>,
)
    ensures
        option_lines(Seq::empty()) == Seq::<char>::empty(),
        option_lines(options.push((name, JsonView::Null))) == option_lines(options) + ("\n- "@
            + name),
        option_lines(options.push((name, JsonView::String(description)))) == option_lines(options)
            + ("\n- "@ + name + ": "@ + description),
        option_lines(options.push((name, JsonView::Other(description)))) == option_lines(options)
            + ("\n- "@ + name + ": "@ + description),
{
    assert(options.push((name, JsonView::Null)).drop_last() =~= options);
    assert(options.push((name, JsonView::String(description))).drop_last() =~= options);
    assert(options.push((name, JsonView::Other(description))).drop_last() =~= options);
}

/// A question is seen with its instructions and its criteria.
pub proof fn question_view_shows_all(question: Question)
    ensures
        match question {
            Question::Noul { instructions, criteria } => {
                &&& question@ matches QuestionView::Noul { instructions: shown, criteria: held }
                &&& shown == instructions@
                &&& match criteria {
                    Some(c) => held matches Some(h) && h.yes == c.yes@ && h.no == c.no@,
                    None => held is None,
                }
            },
            Question::Choice { instructions, criteria } => {
                &&& question@ matches QuestionView::Choice { instructions: shown, criteria: held }
                &&& shown == instructions@
                &&& held == criteria@
            },
        },
{
}

} // verus!
