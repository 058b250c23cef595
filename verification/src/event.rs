//! Typed events decoded from the peer's notifications.

pub mod grid_line;
pub mod hl_attr_define;
pub mod set_icon;

use vstd::prelude::*;

use crate::value::{seq_view, value_view, Value, ValueView};
use grid_line::{spec_parse_grid_line, GridLine, GridLineView};
use hl_attr_define::{spec_parse_hl_attrs, HlAttrDefine, HlAttrDefineParseError, HlAttrView};
use set_icon::{spec_parse_set_icon, SetIcon};

verus! {

/// One decoded notification: a typed event the renderer consumes.  The
/// set of kinds the peer can emit is append-only; an unrecognized name
/// decodes to an error the caller logs and skips.
#[derive(Debug)]
pub enum Event {
    /// Rows to redraw, one entry per notification argument.
    GridLine(Vec<GridLine>),
    /// Additions to the highlight table.
    HlAttrDefine(HlAttrDefine),
    /// A new icon title.
    SetIcon(SetIcon),
}

/// The model of an event.
pub ghost enum EventView {
    GridLine(Seq<GridLineView>),
    HlAttrDefine(Seq<HlAttrView>),
    SetIcon(Seq<char>),
}

/// The models of a grid-line sequence.
pub open spec fn grid_line_views(gs: Seq<GridLine>) -> Seq<GridLineView> {
    gs.map_values(|g: GridLine| g@)
}

impl View for Event {
    type V = EventView;

    open spec fn view(&self) -> EventView {
        match self {
            Event::GridLine(gs) => EventView::GridLine(grid_line_views(gs@)),
            Event::HlAttrDefine(d) => EventView::HlAttrDefine(d@),
            Event::SetIcon(s) => EventView::SetIcon(s@),
        }
    }
}

/// Why one notification failed to decode; only that notification is
/// dropped, never the batch or the connection.
#[derive(Debug, Clone, Copy, PartialEq, Eq, Structural)]
pub enum EventParseError {
    /// A name this decoder does not know; the protocol is append-only,
    /// so the caller logs and skips it.
    UnknownEvent,
    /// A batch entry that is not a named parameter array.
    MalformedEntry,
    /// A grid-line argument of the wrong shape.
    GridLine,
    /// A set-icon argument of the wrong shape.
    SetIcon,
    /// A highlight-table argument of the wrong shape, with which part
    /// failed.
    HlAttrDefine(HlAttrDefineParseError),
}

/// The grid-line arguments read left to right; one bad argument rejects
/// the notification.
pub open spec fn spec_parse_grid_lines(args: Seq<ValueView>, i: int) -> Option<Seq<GridLineView>>
    decreases args.len() - i,
{
    if i < 0 || i >= args.len() {
        Some(Seq::empty())
    } else {
        match spec_parse_grid_line(args[i]) {
            Some(g) => match spec_parse_grid_lines(args, i + 1) {
                Some(gs) => Some(seq![g] + gs),
                None => None,
            },
            None => None,
        }
    }
}

/// How one notification decodes, dispatched on its method name.
pub open spec fn spec_parse_event(method: Seq<char>, args: Seq<ValueView>) -> Result<
    EventView,
    EventParseError,
> {
    if method == "grid_line"@ {
        match spec_parse_grid_lines(args, 0) {
            Some(gs) => Ok(EventView::GridLine(gs)),
            None => Err(EventParseError::GridLine),
        }
    } else if method == "hl_attr_define"@ {
        match spec_parse_hl_attrs(args, 0) {
            Ok(attrs) => Ok(EventView::HlAttrDefine(attrs)),
            Err(e) => Err(EventParseError::HlAttrDefine(e)),
        }
    } else if method == "set_icon"@ {
        if args.len() >= 1 && spec_parse_set_icon(args[0]) is Some {
            Ok(EventView::SetIcon(spec_parse_set_icon(args[0])->0))
        } else {
            Err(EventParseError::SetIcon)
        }
    } else {
        Err(EventParseError::UnknownEvent)
    }
}

impl Event {
    /// Decodes one notification: the method name picks the constructor,
    /// and the arguments are read strictly left to right.
    #[verifier::loop_isolation(false)]
    pub fn parse(method: &str, args: Vec<Value>) -> (r: Result<Event, EventParseError>)
        ensures
            match r {
                Ok(ev) => spec_parse_event(method@, seq_view(args@)) == Ok::<
                    EventView,
                    EventParseError,
                >(ev@),
                Err(e) => spec_parse_event(method@, seq_view(args@)) == Err::<
                    EventView,
                    EventParseError,
                >(e),
            },
    {
        proof {
            crate::value::lemma_seq_view(args@);
        }
        let ghost avs = seq_view(args@);
        if crate::value::str_eq(method, "grid_line") {
            let mut lines: Vec<GridLine> = Vec::new();
            let mut rest = args;
            let mut i: usize = 0;
            proof {
                assert(grid_line_views(lines@) =~= Seq::<GridLineView>::empty());
            }
            while i < rest.len()
                invariant
                    i <= rest@.len(),
                    rest@.len() == avs.len(),
                    forall|j: int| i <= j < rest@.len() ==> value_view(rest@[j]) == avs[j],
                    spec_parse_grid_lines(avs, 0) == (match spec_parse_grid_lines(avs, i as int) {
                        Some(gs) => Some(grid_line_views(lines@) + gs),
                        None => None::<Seq<GridLineView>>,
                    }),
                decreases rest@.len() - i,
            {
                let gv = crate::value::take_at(&mut rest, i);
                proof {
                    assert(value_view(gv) == avs[i as int]);
                }
                let ghost pre = grid_line_views(lines@);
                match GridLine::parse(gv) {
                    Some(g) => {
                        lines.push(g);
                        proof {
                            assert(grid_line_views(lines@) =~= pre.push(lines@.last()@));
                            let tail = spec_parse_grid_lines(avs, i as int + 1);
                            if tail is Some {
                                let gs = tail->0;
                                assert(pre + (seq![lines@.last()@] + gs) =~= grid_line_views(
                                    lines@,
                                ) + gs);
                            }
                        }
                    },
                    None => {
                        return Err(EventParseError::GridLine);
                    },
                }
                i = i + 1;
            }
            proof {
                assert(spec_parse_grid_lines(avs, avs.len() as int) == Some(
                    Seq::<GridLineView>::empty(),
                ));
                assert(grid_line_views(lines@) + Seq::<GridLineView>::empty() =~= grid_line_views(
                    lines@,
                ));
            }
            Ok(Event::GridLine(lines))
        } else if crate::value::str_eq(method, "hl_attr_define") {
            match HlAttrDefine::try_from(args) {
                Ok(d) => Ok(Event::HlAttrDefine(d)),
                Err(e) => Err(EventParseError::HlAttrDefine(e)),
            }
        } else if crate::value::str_eq(method, "set_icon") {
            if args.len() < 1 {
                return Err(EventParseError::SetIcon);
            }
            let mut rest = args;
            let first = crate::value::take_at(&mut rest, 0);
            match SetIcon::parse(first) {
                Some(s) => Ok(Event::SetIcon(s)),
                None => Err(EventParseError::SetIcon),
            }
        } else {
            Err(EventParseError::UnknownEvent)
        }
    }
}

/// How one batch entry decodes: a parameter array whose first element
/// names the notification and whose remaining elements are its
/// arguments.
pub open spec fn spec_parse_entry(v: ValueView) -> Result<EventView, EventParseError> {
    if v matches ValueView::Array(items) && v->Array_0.len() >= 1 && v->Array_0[0] is Str {
        spec_parse_event(v->Array_0[0]->Str_0, v->Array_0.skip(1))
    } else {
        Err(EventParseError::MalformedEntry)
    }
}

/// How a whole redraw batch decodes, entry by entry: the events that
/// decoded, in order, and the errors of those that did not — a rejected
/// entry is dropped without aborting its siblings.
pub open spec fn spec_parse_batch(entries: Seq<ValueView>, i: int) -> (
    Seq<EventView>,
    Seq<EventParseError>,
)
    decreases entries.len() - i,
{
    if i < 0 || i >= entries.len() {
        (Seq::empty(), Seq::empty())
    } else {
        let rest = spec_parse_batch(entries, i + 1);
        match spec_parse_entry(entries[i]) {
            Ok(ev) => (seq![ev] + rest.0, rest.1),
            Err(e) => (rest.0, seq![e] + rest.1),
        }
    }
}

/// The models of an event sequence.
pub open spec fn event_views(evs: Seq<Event>) -> Seq<EventView> {
    evs.map_values(|e: Event| e@)
}

/// Decodes a whole redraw batch.  Every entry is tried; a rejected
/// entry contributes an error and its siblings still decode.
#[verifier::loop_isolation(false)]
pub fn parse_redraw_batch(params: Vec<Value>) -> (r: (Vec<Event>, Vec<EventParseError>))
    ensures
        event_views(r.0@) == spec_parse_batch(seq_view(params@), 0).0,
        r.1@ == spec_parse_batch(seq_view(params@), 0).1,
{
    proof {
        crate::value::lemma_seq_view(params@);
    }
    let ghost evs = seq_view(params@);
    let mut events: Vec<Event> = Vec::new();
    let mut errors: Vec<EventParseError> = Vec::new();
    let mut rest = params;
    let mut i: usize = 0;
    proof {
        assert(event_views(events@) =~= Seq::<EventView>::empty());
    }
    while i < rest.len()
        invariant
            i <= rest@.len(),
            rest@.len() == evs.len(),
            forall|j: int| i <= j < rest@.len() ==> value_view(rest@[j]) == evs[j],
            spec_parse_batch(evs, 0).0 == event_views(events@) + spec_parse_batch(evs, i as int).0,
            spec_parse_batch(evs, 0).1 == errors@ + spec_parse_batch(evs, i as int).1,
        decreases rest@.len() - i,
    {
        let ev = crate::value::take_at(&mut rest, i);
        proof {
            assert(value_view(ev) == evs[i as int]);
        }
        let ghost pre_events = event_views(events@);
        let ghost pre_errors = errors@;
        let entry_items = match ev.into_array() {
            Some(items) => Some(items),
            None => None,
        };
        match entry_items {
            Some(mut items) => {
                proof {
                    crate::value::lemma_seq_view(items@);
                }
                if items.len() < 1 {
                    errors.push(EventParseError::MalformedEntry);
                    proof {
                        assert(pre_errors + (seq![EventParseError::MalformedEntry]
                            + spec_parse_batch(evs, i as int + 1).1) =~= errors@
                            + spec_parse_batch(evs, i as int + 1).1);
                    }
                } else {
                    let name_v = crate::value::take_at(&mut items, 0);
                    match name_v.into_string() {
                        Some(name) => {
                            let mut args = items;
                            let _ = args.remove(0);
                            proof {
                                assert(seq_view(args@) =~= evs[i as int]->Array_0.skip(1));
                            }
                            match Event::parse(name.as_str(), args) {
                                Ok(event) => {
                                    events.push(event);
                                    proof {
                                        assert(event_views(events@) =~= pre_events.push(
                                            events@.last()@,
                                        ));
                                        assert(pre_events + (seq![events@.last()@]
                                            + spec_parse_batch(evs, i as int + 1).0)
                                            =~= event_views(events@) + spec_parse_batch(
                                            evs,
                                            i as int + 1,
                                        ).0);
                                    }
                                },
                                Err(e) => {
                                    errors.push(e);
                                    proof {
                                        assert(pre_errors + (seq![e] + spec_parse_batch(
                                            evs,
                                            i as int + 1,
                                        ).1) =~= errors@ + spec_parse_batch(evs, i as int + 1).1);
                                    }
                                },
                            }
                        },
                        None => {
                            errors.push(EventParseError::MalformedEntry);
                            proof {
                                assert(pre_errors + (seq![EventParseError::MalformedEntry]
                                    + spec_parse_batch(evs, i as int + 1).1) =~= errors@
                                    + spec_parse_batch(evs, i as int + 1).1);
                            }
                        },
                    }
                }
            },
            None => {
                errors.push(EventParseError::MalformedEntry);
                proof {
                    assert(pre_errors + (seq![EventParseError::MalformedEntry] + spec_parse_batch(
                        evs,
                        i as int + 1,
                    ).1) =~= errors@ + spec_parse_batch(evs, i as int + 1).1);
                }
            },
        }
        i = i + 1;
    }
    proof {
        assert(event_views(events@) + spec_parse_batch(evs, evs.len() as int).0 =~= event_views(
            events@,
        ));
        assert(errors@ + spec_parse_batch(evs, evs.len() as int).1 =~= errors@);
    }
    (events, errors)
}

} // verus!
