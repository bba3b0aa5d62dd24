//! The argument shapes of the commands that unfolding repeats looks for.
use vstd::prelude::*;
use crate::command::{ArgKind, KindView, kind_view};
use crate::text::same;

verus! {

/// A command's argument signature: its name (without the backslash) and the arguments it consumes,
/// in order.
#[derive(Debug)]
pub struct CommandSpec {
    pub name: &'static str,
    pub args: Vec<ArgKind>,
}

/// What each of a run of kinds says.
pub open spec fn kind_views(kinds: Seq<ArgKind>) -> Seq<KindView> {
    kinds.map_values(|kind: ArgKind| kind_view(kind))
}

/// The arguments that a command consumes.
pub open spec fn shape_of_command(name: Seq<char>) -> Option<Seq<KindView>> {
    if name == "repeat"@ {
        Some(seq![KindView::BareWord, KindView::Count, KindView::Music])
    } else if name == "volta"@ {
        Some(seq![KindView::NumberList, KindView::Music])
    } else if name == "alternative"@ {
        Some(seq![KindView::Music])
    } else {
        None
    }
}

/// The argument signature for `\name` (given without the backslash), if known.
pub fn spec_for(name: &str) -> (r: Option<CommandSpec>)
    ensures
        match r {
            Some(spec) => spec.name@ == name@ && shape_of_command(name@) == Some(
                kind_views(spec.args@),
            ),
            None => shape_of_command(name@) is None,
        },
{
    if same(name, "repeat") {
        let args = vec![ArgKind::BareWord, ArgKind::Count, ArgKind::Music];
        assert(kind_views(args@) =~= seq![KindView::BareWord, KindView::Count, KindView::Music]);
        Some(CommandSpec { name: "repeat", args })
    } else if same(name, "volta") {
        let args = vec![ArgKind::NumberList, ArgKind::Music];
        assert(kind_views(args@) =~= seq![KindView::NumberList, KindView::Music]);
        Some(CommandSpec { name: "volta", args })
    } else if same(name, "alternative") {
        let args = vec![ArgKind::Music];
        assert(kind_views(args@) =~= seq![KindView::Music]);
        Some(CommandSpec { name: "alternative", args })
    } else {
        None
    }
}

} // verus!
