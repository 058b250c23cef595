//! Window icon title updates.

use vstd::prelude::*;

use crate::value::{Value, ValueView};

verus! {

/// Set the icon (minimized window) title.
#[derive(Debug, Clone)]
pub struct SetIcon {
    pub title: String,
}

impl View for SetIcon {
    type V = Seq<char>;

    open spec fn view(&self) -> Seq<char> {
        self.title@
    }
}

/// How the event is read from its parameter array: the first element
/// must be the title string.
pub open spec fn spec_parse_set_icon(v: ValueView) -> Option<Seq<char>> {
    if v matches ValueView::Array(items) && v->Array_0.len() >= 1 && v->Array_0[0] is Str {
        Some(v->Array_0[0]->Str_0)
    } else {
        None
    }
}

impl SetIcon {
    /// Reads the event from its parameter array.
    pub fn parse(value: Value) -> (r: Option<SetIcon>)
        ensures
            match r {
                Some(s) => spec_parse_set_icon(value@) == Some(s@),
                None => spec_parse_set_icon(value@) is None,
            },
    {
        let mut items = match value.into_array() {
            Some(items) => items,
            None => {
                return None;
            },
        };
        proof {
            crate::value::lemma_seq_view(items@);
        }
        if items.len() < 1 {
            return None;
        }
        let first = crate::value::take_at(&mut items, 0);
        match first.into_string() {
            Some(title) => Some(SetIcon { title }),
            None => None,
        }
    }
}

} // verus!
