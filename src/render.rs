use crate::diff::{CompareMode, Difference, DifferenceKind, DifferenceView, KindView};
use crate::path::path_text;
use crate::text::{indent_text, indented};
use vstd::prelude::*;

verus! {

/// The message for one difference. The side labels follow the compare mode:
/// `lhs`/`rhs` for a strict comparison, `actual`/`expected` otherwise.
/// `lhs_text` and `rhs_text` are the printed forms of the two values of a
/// disagreement, shown indented by eight spaces.
pub open spec fn message_text(
    d: DifferenceView,
    mode: CompareMode,
    lhs_text: Seq<char>,
    rhs_text: Seq<char>,
) -> Seq<char> {
    let at = path_text(d.path);
    match d.kind {
        KindView::NotEqual(_, _) => if mode == CompareMode::Strict {
            "json atoms at path \""@ + at + "\" are not equal:\n    lhs:\n"@ + indented(lhs_text, 8)
                + "\n    rhs:\n"@ + indented(rhs_text, 8)
        } else {
            "json atoms at path \""@ + at + "\" are not equal:\n    expected:\n"@ + indented(
                rhs_text,
                8,
            ) + "\n    actual:\n"@ + indented(lhs_text, 8)
        },
        KindView::MissingFromLeft => if mode == CompareMode::Strict {
            "json atom at path \""@ + at + "\" is missing from lhs"@
        } else {
            "json atom at path \""@ + at + "\" is missing from actual"@
        },
        KindView::MissingFromRight => if mode == CompareMode::Strict {
            "json atom at path \""@ + at + "\" is missing from rhs"@
        } else {
            "json atom at path \""@ + at + "\" is missing from expected"@
        },
    }
}

/// The messages one after the other, a blank line between two neighbours.
pub open spec fn join_messages(ms: Seq<Seq<char>>) -> Seq<char>
    decreases ms.len(),
{
    if ms.len() == 0 {
        Seq::empty()
    } else if ms.len() == 1 {
        ms[0]
    } else {
        join_messages(ms.drop_last()) + "\n\n"@ + ms.last()
    }
}

impl Difference {
    /// The message for this difference; see [`message_text`].
    pub fn message(&self, compare_mode: CompareMode, lhs_text: &str, rhs_text: &str) -> (r: String)
        ensures
            r@ == message_text(self@, compare_mode, lhs_text@, rhs_text@),
    {
        let at = self.path.render();
        let strict = match compare_mode {
            CompareMode::Strict => true,
            _ => false,
        };
        let mut s = String::new();
        match &self.kind {
            DifferenceKind::NotEqual(_, _) => {
                s.append("json atoms at path \"");
                s.append(at.as_str());
                if strict {
                    s.append("\" are not equal:\n    lhs:\n");
                    s.append(indent_text(lhs_text, 8).as_str());
                    s.append("\n    rhs:\n");
                    s.append(indent_text(rhs_text, 8).as_str());
                } else {
                    s.append("\" are not equal:\n    expected:\n");
                    s.append(indent_text(rhs_text, 8).as_str());
                    s.append("\n    actual:\n");
                    s.append(indent_text(lhs_text, 8).as_str());
                }
            },
            DifferenceKind::MissingFromLeft => {
                s.append("json atom at path \"");
                s.append(at.as_str());
                if strict {
                    s.append("\" is missing from lhs");
                } else {
                    s.append("\" is missing from actual");
                }
            },
            DifferenceKind::MissingFromRight => {
                s.append("json atom at path \"");
                s.append(at.as_str());
                if strict {
                    s.append("\" is missing from rhs");
                } else {
                    s.append("\" is missing from expected");
                }
            },
        }
        assert(s@ =~= message_text(self@, compare_mode, lhs_text@, rhs_text@));
        s
    }
}

/// The outcome of a comparison from its messages: success when there are
/// none, else all of them, a blank line between two neighbours.
pub fn report(messages: &Vec<String>) -> (r: Result<(), String>)
    ensures
        messages@.len() == 0 <==> r is Ok,
        r matches Err(text) ==> text@ == join_messages(messages@.map_values(|m: String| m@)),
{
    if messages.len() == 0 {
        return Ok(());
    }
    let ghost ms = messages@.map_values(|m: String| m@);
    let mut out = String::new();
    let mut i: usize = 0;
    while i < messages.len()
        invariant
            i <= messages@.len(),
            ms == messages@.map_values(|m: String| m@),
            out@ == join_messages(ms.subrange(0, i as int)),
        decreases messages.len() - i,
    {
        if i > 0 {
            out.append("\n\n");
        }
        out.append(messages[i].as_str());
        proof {
            let next = ms.subrange(0, i + 1);
            assert(next.drop_last() =~= ms.subrange(0, i as int));
            if i == 0 {
                assert(out@ =~= ms[0]);
            }
        }
        i = i + 1;
    }
    proof {
        assert(ms.subrange(0, i as int) =~= ms);
    }
    Err(out)
}

} // verus!
