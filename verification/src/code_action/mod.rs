//! Code actions offered for a selection: refactorings and quick fixes.
//!
//! Each action lives in its own module and implements [`CodeAction`]. The work is split in two:
//! `offer` only decides whether the action applies and what to call it, while `resolve` builds the
//! edits, for the one action that is picked.
pub mod extract_to_variable;
pub mod heard;
pub mod inline_repeats;
pub mod inline_variable;
pub mod inverse;
pub mod make_explicit;
pub mod moved;
pub mod note_state;
pub mod splice;

use vstd::prelude::*;
use crate::code_action::extract_to_variable::ExtractToVariable;
use crate::code_action::inline_repeats::InlineRepeats;
use crate::code_action::inline_variable::{InlineAll, InlineHere};
use crate::code_action::make_explicit::{
    MakeBothExplicit, MakeDurationsExplicit, MakePitchesExplicit,
};
use crate::document::Document;
use crate::protocol::{EditView, Range, TextEdit, edit_views};

verus! {

/// How an action is categorised.
#[derive(Debug, Clone, Copy, PartialEq, Eq, Structural)]
pub enum ActionKind {
    RefactorExtract,
    RefactorInline,
    RefactorRewrite,
}

/// An action's menu entry: how it is labelled and categorised.
#[derive(Debug)]
pub struct Offer {
    pub title: String,
    pub kind: ActionKind,
}

/// A command for the editor to run once an action's edits are made.
#[derive(Debug)]
pub struct ClientCommand {
    pub title: String,
    pub command: String,
}

/// The edits that perform an action, plus an optional follow-up command.
#[derive(Debug)]
pub struct Resolved {
    pub edits: Vec<TextEdit>,
    pub command: Option<ClientCommand>,
}

/// What a [`Resolved`] action does.
pub struct ResolvedView {
    pub edits: Seq<EditView>,
    pub command: Option<(Seq<char>, Seq<char>)>,
}

impl View for Resolved {
    type V = ResolvedView;

    open spec fn view(&self) -> ResolvedView {
        ResolvedView {
            edits: edit_views(self.edits@),
            command: match self.command {
                Some(command) => Some((command.title@, command.command@)),
                None => None,
            },
        }
    }
}

/// Whether an offer is the one of a title and a kind.
pub open spec fn offers(r: Option<Offer>, applies: bool, title: Seq<char>, kind: ActionKind) -> bool {
    match r {
        Some(offer) => applies && offer.title@ == title && offer.kind == kind,
        None => !applies,
    }
}

/// Whether a result is what `expected` says.
pub open spec fn resolves(r: Option<Resolved>, expected: Option<ResolvedView>) -> bool {
    match r {
        Some(resolved) => expected == Some(resolved@),
        None => expected is None,
    }
}

/// A code action for a selection in a document.
pub trait CodeAction {
    /// What the action is called.
    spec fn title() -> Seq<char>;

    /// How it is categorised.
    spec fn kind() -> ActionKind;

    /// Whether the action applies to a selection.
    spec fn applies(document: Document, selection: Range) -> bool;

    /// What the action does to a selection.
    spec fn outcome(document: Document, selection: Range) -> Option<ResolvedView>;

    /// Decides whether this action applies to `selection`, returning the menu entry to show.
    fn offer(document: &Document, selection: Range) -> (r: Option<Offer>)
        requires
            document.wf(),
        ensures
            offers(r, Self::applies(*document, selection), Self::title(), Self::kind()),
    ;

    /// Builds the edits that perform the action. `None` if the document does not support it.
    fn resolve(document: &Document, selection: Range) -> (r: Option<Resolved>)
        requires
            document.wf(),
        ensures
            resolves(r, Self::outcome(*document, selection)),
    ;
}

/// The actions there are.
#[derive(Debug, Clone, Copy, PartialEq, Eq, Structural)]
pub enum Action {
    ExtractToVariable,
    InlineAll,
    InlineHere,
    MakeDurationsExplicit,
    MakePitchesExplicit,
    MakeBothExplicit,
    InlineRepeats,
}

impl Action {
    pub open spec fn identifier(self) -> Seq<char> {
        match self {
            Action::ExtractToVariable => "extract_to_variable"@,
            Action::InlineAll => "inline_all"@,
            Action::InlineHere => "inline_here"@,
            Action::MakeDurationsExplicit => "make_durations_explicit"@,
            Action::MakePitchesExplicit => "make_pitches_explicit"@,
            Action::MakeBothExplicit => "make_pitches_and_durations_explicit"@,
            Action::InlineRepeats => "inline_repeats"@,
        }
    }

    /// Tells this action's payloads from other actions'.
    pub fn id(self) -> (r: &'static str)
        ensures
            r@ == self.identifier(),
    {
        match self {
            Action::ExtractToVariable => "extract_to_variable",
            Action::InlineAll => "inline_all",
            Action::InlineHere => "inline_here",
            Action::MakeDurationsExplicit => "make_durations_explicit",
            Action::MakePitchesExplicit => "make_pitches_explicit",
            Action::MakeBothExplicit => "make_pitches_and_durations_explicit",
            Action::InlineRepeats => "inline_repeats",
        }
    }

    pub open spec fn applies(self, document: Document, selection: Range) -> bool {
        match self {
            Action::ExtractToVariable => ExtractToVariable::applies(document, selection),
            Action::InlineAll => InlineAll::applies(document, selection),
            Action::InlineHere => InlineHere::applies(document, selection),
            Action::MakeDurationsExplicit => MakeDurationsExplicit::applies(document, selection),
            Action::MakePitchesExplicit => MakePitchesExplicit::applies(document, selection),
            Action::MakeBothExplicit => MakeBothExplicit::applies(document, selection),
            Action::InlineRepeats => InlineRepeats::applies(document, selection),
        }
    }

    pub open spec fn outcome(self, document: Document, selection: Range) -> Option<ResolvedView> {
        match self {
            Action::ExtractToVariable => ExtractToVariable::outcome(document, selection),
            Action::InlineAll => InlineAll::outcome(document, selection),
            Action::InlineHere => InlineHere::outcome(document, selection),
            Action::MakeDurationsExplicit => MakeDurationsExplicit::outcome(document, selection),
            Action::MakePitchesExplicit => MakePitchesExplicit::outcome(document, selection),
            Action::MakeBothExplicit => MakeBothExplicit::outcome(document, selection),
            Action::InlineRepeats => InlineRepeats::outcome(document, selection),
        }
    }

    pub open spec fn title(self) -> Seq<char> {
        match self {
            Action::ExtractToVariable => ExtractToVariable::title(),
            Action::InlineAll => InlineAll::title(),
            Action::InlineHere => InlineHere::title(),
            Action::MakeDurationsExplicit => MakeDurationsExplicit::title(),
            Action::MakePitchesExplicit => MakePitchesExplicit::title(),
            Action::MakeBothExplicit => MakeBothExplicit::title(),
            Action::InlineRepeats => InlineRepeats::title(),
        }
    }

    pub open spec fn kind(self) -> ActionKind {
        match self {
            Action::ExtractToVariable => ExtractToVariable::kind(),
            Action::InlineAll => InlineAll::kind(),
            Action::InlineHere => InlineHere::kind(),
            Action::MakeDurationsExplicit => MakeDurationsExplicit::kind(),
            Action::MakePitchesExplicit => MakePitchesExplicit::kind(),
            Action::MakeBothExplicit => MakeBothExplicit::kind(),
            Action::InlineRepeats => InlineRepeats::kind(),
        }
    }

    /// Offers the action if it applies.
    pub fn offer(self, document: &Document, selection: Range) -> (r: Option<Offer>)
        requires
            document.wf(),
        ensures
            offers(r, self.applies(*document, selection), self.title(), self.kind()),
    {
        match self {
            Action::ExtractToVariable => ExtractToVariable::offer(document, selection),
            Action::InlineAll => InlineAll::offer(document, selection),
            Action::InlineHere => InlineHere::offer(document, selection),
            Action::MakeDurationsExplicit => MakeDurationsExplicit::offer(document, selection),
            Action::MakePitchesExplicit => MakePitchesExplicit::offer(document, selection),
            Action::MakeBothExplicit => MakeBothExplicit::offer(document, selection),
            Action::InlineRepeats => InlineRepeats::offer(document, selection),
        }
    }

    /// Builds the action's edits.
    pub fn resolve(self, document: &Document, selection: Range) -> (r: Option<Resolved>)
        requires
            document.wf(),
        ensures
            resolves(r, self.outcome(*document, selection)),
    {
        match self {
            Action::ExtractToVariable => ExtractToVariable::resolve(document, selection),
            Action::InlineAll => InlineAll::resolve(document, selection),
            Action::InlineHere => InlineHere::resolve(document, selection),
            Action::MakeDurationsExplicit => MakeDurationsExplicit::resolve(document, selection),
            Action::MakePitchesExplicit => MakePitchesExplicit::resolve(document, selection),
            Action::MakeBothExplicit => MakeBothExplicit::resolve(document, selection),
            Action::InlineRepeats => InlineRepeats::resolve(document, selection),
        }
    }
}

/// Every action, in the order they are offered.
pub open spec fn actions() -> Seq<Action> {
    seq![
        Action::ExtractToVariable,
        Action::InlineAll,
        Action::InlineHere,
        Action::MakeDurationsExplicit,
        Action::MakePitchesExplicit,
        Action::MakeBothExplicit,
        Action::InlineRepeats,
    ]
}

/// Those of the first `n` actions that apply to a selection.
pub open spec fn applicable(document: Document, selection: Range, n: int) -> Seq<Action>
    decreases n,
{
    if n <= 0 {
        Seq::empty()
    } else {
        let before = applicable(document, selection, n - 1);
        if actions()[n - 1].applies(document, selection) {
            before.push(actions()[n - 1])
        } else {
            before
        }
    }
}

/// An action that applies, with its menu entry.
#[derive(Debug)]
pub struct Offered {
    pub action: Action,
    pub offer: Offer,
}

/// Whether an offered action carries its own menu entry.
pub open spec fn well_offered(offered: Offered) -> bool {
    offered.offer.title@ == offered.action.title() && offered.offer.kind == offered.action.kind()
}

/// Offers every code action that applies to `selection`.
pub fn offer_all(document: &Document, selection: Range) -> (r: Vec<Offered>)
    requires
        document.wf(),
    ensures
        r@.map_values(|offered: Offered| offered.action) == applicable(
            *document,
            selection,
            actions().len() as int,
        ),
        forall|k: int| 0 <= k < r@.len() ==> well_offered(#[trigger] r@[k]),
{
    let all: [Action; 7] = [
        Action::ExtractToVariable,
        Action::InlineAll,
        Action::InlineHere,
        Action::MakeDurationsExplicit,
        Action::MakePitchesExplicit,
        Action::MakeBothExplicit,
        Action::InlineRepeats,
    ];
    let mut out: Vec<Offered> = Vec::new();
    let ghost pick = |offered: Offered| offered.action;
    let mut k: usize = 0;
    assert(all@ =~= actions());
    assert(out@.map_values(pick) =~= Seq::empty());
    while k < 7
        invariant
            document.wf(),
            k <= 7,
            all@ == actions(),
            pick == (|offered: Offered| offered.action),
            out@.map_values(pick) == applicable(*document, selection, k as int),
            forall|k: int| 0 <= k < out@.len() ==> well_offered(#[trigger] out@[k]),
        decreases 7 - k,
    {
        let action = all[k];
        match action.offer(document, selection) {
            Some(offer) => {
                let ghost before = out@;
                let offered = Offered { action, offer };
                out.push(offered);
                assert(out@.map_values(pick) =~= before.map_values(pick).push(action));
            },
            None => {},
        }
        k = k + 1;
    }
    out
}

/// The action with an identifier.
pub open spec fn action_called(id: Seq<char>) -> Option<Action> {
    if id == "extract_to_variable"@ {
        Some(Action::ExtractToVariable)
    } else if id == "inline_all"@ {
        Some(Action::InlineAll)
    } else if id == "inline_here"@ {
        Some(Action::InlineHere)
    } else if id == "make_durations_explicit"@ {
        Some(Action::MakeDurationsExplicit)
    } else if id == "make_pitches_explicit"@ {
        Some(Action::MakePitchesExplicit)
    } else if id == "make_pitches_and_durations_explicit"@ {
        Some(Action::MakeBothExplicit)
    } else if id == "inline_repeats"@ {
        Some(Action::InlineRepeats)
    } else {
        None
    }
}

/// Builds the edits of the action whose identifier is `id`; `None` for an identifier of no action,
/// or where the action no longer applies.
pub fn resolve(document: &Document, id: &str, selection: Range) -> (r: Option<Resolved>)
    requires
        document.wf(),
    ensures
        match action_called(id@) {
            Some(action) => resolves(r, action.outcome(*document, selection)),
            None => r is None,
        },
{
    if crate::text::same(id, "extract_to_variable") {
        Action::ExtractToVariable.resolve(document, selection)
    } else if crate::text::same(id, "inline_all") {
        Action::InlineAll.resolve(document, selection)
    } else if crate::text::same(id, "inline_here") {
        Action::InlineHere.resolve(document, selection)
    } else if crate::text::same(id, "make_durations_explicit") {
        Action::MakeDurationsExplicit.resolve(document, selection)
    } else if crate::text::same(id, "make_pitches_explicit") {
        Action::MakePitchesExplicit.resolve(document, selection)
    } else if crate::text::same(id, "make_pitches_and_durations_explicit") {
        Action::MakeBothExplicit.resolve(document, selection)
    } else if crate::text::same(id, "inline_repeats") {
        Action::InlineRepeats.resolve(document, selection)
    } else {
        None
    }
}

/// The identifier that an action is offered under resolves to that action.
pub proof fn law_identifiers_lead_back(action: Action)
    ensures
        action_called(action.identifier()) == Some(action),
{
    reveal_strlit("extract_to_variable");
    reveal_strlit("inline_all");
    reveal_strlit("inline_here");
    reveal_strlit("make_durations_explicit");
    reveal_strlit("make_pitches_explicit");
    reveal_strlit("make_pitches_and_durations_explicit");
    reveal_strlit("inline_repeats");
    // The identifiers differ in length, but for two pairs that differ in a character.
    assert("make_durations_explicit"@.len() == 23);
    assert("make_pitches_explicit"@.len() == 21);
    assert("inline_all"@.len() == 10);
    assert("inline_here"@.len() == 11);
    assert("inline_repeats"@.len() == 14);
    assert("extract_to_variable"@.len() == 19);
    assert("make_pitches_and_durations_explicit"@.len() == 35);
}

/// An action that does something to a selection is offered for it.
pub proof fn law_what_resolves_was_offered(action: Action, document: Document, selection: Range)
    requires
        action.outcome(document, selection) is Some,
    ensures
        action.applies(document, selection),
{
    match action {
        Action::MakeDurationsExplicit => make_explicit::law_what_is_offered_is_written(
            document,
            selection,
            false,
            true,
        ),
        Action::MakePitchesExplicit => make_explicit::law_what_is_offered_is_written(
            document,
            selection,
            true,
            false,
        ),
        Action::MakeBothExplicit => make_explicit::law_what_is_offered_is_written(
            document,
            selection,
            true,
            true,
        ),
        _ => {},
    }
}

/// An action that is offered for a selection of a program does something to it: nothing is listed
/// that is not available.
pub proof fn law_what_is_offered_resolves(action: Action, document: Document, selection: Range)
    requires
        document.wf(),
        document.nodes()[0].kind@ == "lilypond_program"@,
        inline_variable::references_forward(document),
        action.applies(document, selection),
    ensures
        action.outcome(document, selection) is Some,
{
    match action {
        Action::ExtractToVariable => extract_to_variable::law_an_offered_extraction_can_be_made(
            document,
            selection,
        ),
        Action::InlineAll => inline_variable::law_offered_inlining_can_be_done(document, selection),
        Action::InlineHere => inline_variable::law_offered_inlining_can_be_done(document, selection),
        Action::MakeDurationsExplicit => make_explicit::law_what_is_offered_is_written(
            document,
            selection,
            false,
            true,
        ),
        Action::MakePitchesExplicit => make_explicit::law_what_is_offered_is_written(
            document,
            selection,
            true,
            false,
        ),
        Action::MakeBothExplicit => make_explicit::law_what_is_offered_is_written(
            document,
            selection,
            true,
            true,
        ),
        Action::InlineRepeats => {},
    }
}

} // verus!
