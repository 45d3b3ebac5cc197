use vstd::prelude::*;

use crate::text::{decimal, push_decimal};

verus! {

/// The colours the status bar uses.
#[derive(Clone, Copy, Debug, PartialEq, Eq, Structural)]
pub enum SegmentColor {
    DarkGray,
    Yellow,
    Red,
}

/// A piece of the status bar: its text and colour.
pub struct StatusSegment {
    pub text: String,
    pub color: SegmentColor,
}

/// The model of a segment.
pub open spec fn segment_model(s: StatusSegment) -> (Seq<char>, SegmentColor) {
    (s.text@, s.color)
}

/// The key hints, in order.
pub open spec fn key_hints() -> Seq<(Seq<char>, SegmentColor)> {
    seq![
        ("↑↓ Navigate  "@, SegmentColor::DarkGray),
        ("→ Open  "@, SegmentColor::DarkGray),
        ("← Back  "@, SegmentColor::DarkGray),
        ("r Root  "@, SegmentColor::DarkGray),
        ("d Trash  "@, SegmentColor::DarkGray),
        ("q Quit"@, SegmentColor::DarkGray),
    ]
}

/// What the status bar shows: while a Trash confirmation with a message is pending, only the
/// message (yellow); otherwise the key hints, then the skipped count when there is one
/// (yellow), then the message when there is one (red).
pub open spec fn status_bar(skipped_count: usize, status_message: Option<Seq<char>>, confirm_trash: bool) -> Seq<(Seq<char>, SegmentColor)> {
    if confirm_trash && status_message is Some {
        seq![(status_message->0, SegmentColor::Yellow)]
    } else {
        let with_skipped = if skipped_count > 0 {
            key_hints().push(("  | "@ + decimal(skipped_count as nat) + " skipped"@, SegmentColor::Yellow))
        } else {
            key_hints()
        };
        match status_message {
            Some(m) => with_skipped.push(("  | "@ + m, SegmentColor::Red)),
            None => with_skipped,
        }
    }
}

fn segment(text: &str, color: SegmentColor) -> (s: StatusSegment)
    ensures
        s.text@ == text@,
        s.color == color,
{
    StatusSegment { text: String::from_str(text), color }
}

/// The segments of the status bar (see `status_bar`).
pub fn build_status_bar(skipped_count: usize, status_message: Option<&str>, confirm_trash: bool) -> (r: Vec<StatusSegment>)
    ensures
        r@.map_values(|s: StatusSegment| segment_model(s)) == status_bar(
            skipped_count,
            match status_message {
                Some(m) => Some(m@),
                None => None,
            },
            confirm_trash,
        ),
{
    if confirm_trash {
        if let Some(msg) = status_message {
            let r = vec![segment(msg, SegmentColor::Yellow)];
            proof {
                assert(r@.map_values(|s: StatusSegment| segment_model(s)) =~= seq![(msg@, SegmentColor::Yellow)]);
            }
            return r;
        }
    }
    let mut spans = vec![
        segment("↑↓ Navigate  ", SegmentColor::DarkGray),
        segment("→ Open  ", SegmentColor::DarkGray),
        segment("← Back  ", SegmentColor::DarkGray),
        segment("r Root  ", SegmentColor::DarkGray),
        segment("d Trash  ", SegmentColor::DarkGray),
        segment("q Quit", SegmentColor::DarkGray),
    ];
    proof {
        assert(spans@.map_values(|s: StatusSegment| segment_model(s)) =~= key_hints());
    }
    if skipped_count > 0 {
        let mut text = String::from_str("  | ");
        push_decimal(&mut text, skipped_count as u64);
        text.append(" skipped");
        let ghost before = spans@;
        spans.push(StatusSegment { text, color: SegmentColor::Yellow });
        proof {
            assert(spans@.map_values(|s: StatusSegment| segment_model(s)) =~= before.map_values(
                |s: StatusSegment| segment_model(s),
            ).push(("  | "@ + decimal(skipped_count as nat) + " skipped"@, SegmentColor::Yellow)));
        }
    }
    if let Some(msg) = status_message {
        let mut text = String::from_str("  | ");
        text.append(msg);
        let ghost before = spans@;
        spans.push(StatusSegment { text, color: SegmentColor::Red });
        proof {
            assert(spans@.map_values(|s: StatusSegment| segment_model(s)) =~= before.map_values(
                |s: StatusSegment| segment_model(s),
            ).push(("  | "@ + msg@, SegmentColor::Red)));
        }
    }
    spans
}

} // verus!
