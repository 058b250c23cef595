//! Additions to the highlight table: style definitions referenced by
//! small integer ids from cell data.

use vstd::prelude::*;

use crate::value::{seq_view, value_view, Value, ValueView};

verus! {

/// Which part of a highlight definition failed to decode.
#[derive(Debug, Clone, Copy, PartialEq, Eq, Structural)]
pub enum HlAttrDefineParseError {
    HlAttr,
    Attributes,
    Info,
    Kind,
}

impl HlAttrDefineParseError {
    /// A description for logs.
    pub fn message(&self) -> (r: &'static str) {
        match self {
            HlAttrDefineParseError::HlAttr => "error parsing a highlight entry",
            HlAttrDefineParseError::Attributes => "error parsing a highlight attribute set",
            HlAttrDefineParseError::Info => "error parsing highlight semantic info",
            HlAttrDefineParseError::Kind => "error parsing a highlight info kind",
        }
    }
}

/// The origin of a highlight: builtin UI, a syntax declaration, or a
/// terminal-emulator process.
#[derive(Debug, Clone, Copy, PartialEq, Eq, Structural)]
pub enum Kind {
    /// Builtin UI highlight.
    Ui,
    /// Highlight applied to a buffer by a syntax declaration or other
    /// runtime functionality.
    Syntax,
    /// Highlight from a process running in a terminal emulator.
    Terminal,
}

/// A set of style attributes; every field is optional and an absent
/// field inherits the default.
#[derive(Debug, Clone, Copy, PartialEq, Eq, Structural)]
pub struct Attributes {
    /// Foreground color.
    pub foreground: Option<u64>,
    /// Background color.
    pub background: Option<u64>,
    /// Color for underlines.
    pub special: Option<u64>,
    /// Reverse video: foreground and background switched.
    pub reverse: Option<bool>,
    /// Italic text.
    pub italic: Option<bool>,
    /// Bold text.
    pub bold: Option<bool>,
    /// Struckthrough text.
    pub strikethrough: Option<bool>,
    /// Underlined text; the line has the special color.
    pub underline: Option<bool>,
    /// Undercurled text; the curl has the special color.
    pub undercurl: Option<bool>,
    /// Double-underlined text.
    pub underdouble: Option<bool>,
    /// Underdotted text.
    pub underdotted: Option<bool>,
    /// Underdashed text.
    pub underdashed: Option<bool>,
    /// Alternative font.
    pub altfont: Option<bool>,
    /// Blend level, 0 to 100.
    pub blend: Option<u64>,
}

/// The attribute set with every field absent.
pub open spec fn spec_attributes_default() -> Attributes {
    Attributes {
        foreground: None,
        background: None,
        special: None,
        reverse: None,
        italic: None,
        bold: None,
        strikethrough: None,
        underline: None,
        undercurl: None,
        underdouble: None,
        underdotted: None,
        underdashed: None,
        altfont: None,
        blend: None,
    }
}

impl Default for Attributes {
    /// The attribute set with every field absent.
    fn default() -> (r: Attributes)
        ensures
            r == spec_attributes_default(),
    {
        Attributes {
            foreground: None,
            background: None,
            special: None,
            reverse: None,
            italic: None,
            bold: None,
            strikethrough: None,
            underline: None,
            undercurl: None,
            underdouble: None,
            underdotted: None,
            underdashed: None,
            altfont: None,
            blend: None,
        }
    }
}

/// The `u64` a wire value holds, if any.
pub open spec fn spec_as_u64(v: ValueView) -> Option<u64> {
    crate::event::grid_line::spec_as_u64(v)
}

/// The bool a wire value holds, if any.
pub open spec fn spec_as_bool(v: ValueView) -> Option<bool> {
    if v matches ValueView::Bool(b) {
        Some(v->Bool_0)
    } else {
        None
    }
}

/// What one map entry does to an attribute set: a known key updates its
/// field when the value has the right type and rejects the set when it
/// does not; an unknown key changes nothing, for forward compatibility.
pub open spec fn spec_attr_step(acc: Attributes, k: Seq<char>, v: ValueView) -> Option<
    Attributes,
> {
    if k == "foreground"@ {
        match spec_as_u64(v) {
            Some(x) => Some(Attributes { foreground: Some(x), ..acc }),
            None => None,
        }
    } else if k == "background"@ {
        match spec_as_u64(v) {
            Some(x) => Some(Attributes { background: Some(x), ..acc }),
            None => None,
        }
    } else if k == "special"@ {
        match spec_as_u64(v) {
            Some(x) => Some(Attributes { special: Some(x), ..acc }),
            None => None,
        }
    } else if k == "reverse"@ {
        match spec_as_bool(v) {
            Some(x) => Some(Attributes { reverse: Some(x), ..acc }),
            None => None,
        }
    } else if k == "italic"@ {
        match spec_as_bool(v) {
            Some(x) => Some(Attributes { italic: Some(x), ..acc }),
            None => None,
        }
    } else if k == "bold"@ {
        match spec_as_bool(v) {
            Some(x) => Some(Attributes { bold: Some(x), ..acc }),
            None => None,
        }
    } else if k == "strikethrough"@ {
        match spec_as_bool(v) {
            Some(x) => Some(Attributes { strikethrough: Some(x), ..acc }),
            None => None,
        }
    } else if k == "underline"@ {
        match spec_as_bool(v) {
            Some(x) => Some(Attributes { underline: Some(x), ..acc }),
            None => None,
        }
    } else if k == "undercurl"@ {
        match spec_as_bool(v) {
            Some(x) => Some(Attributes { undercurl: Some(x), ..acc }),
            None => None,
        }
    } else if k == "underdouble"@ {
        match spec_as_bool(v) {
            Some(x) => Some(Attributes { underdouble: Some(x), ..acc }),
            None => None,
        }
    } else if k == "underdotted"@ {
        match spec_as_bool(v) {
            Some(x) => Some(Attributes { underdotted: Some(x), ..acc }),
            None => None,
        }
    } else if k == "underdashed"@ {
        match spec_as_bool(v) {
            Some(x) => Some(Attributes { underdashed: Some(x), ..acc }),
            None => None,
        }
    } else if k == "altfont"@ {
        match spec_as_bool(v) {
            Some(x) => Some(Attributes { altfont: Some(x), ..acc }),
            None => None,
        }
    } else if k == "blend"@ {
        match spec_as_u64(v) {
            Some(x) => Some(Attributes { blend: Some(x), ..acc }),
            None => None,
        }
    } else {
        Some(acc)
    }
}

/// The attribute map read left to right from position `i`, onto `acc`;
/// a later entry for the same key overwrites the earlier one.
pub open spec fn spec_attrs_from(
    pairs: Seq<(ValueView, ValueView)>,
    i: int,
    acc: Attributes,
) -> Option<Attributes>
    decreases pairs.len() - i,
{
    if i < 0 || i >= pairs.len() {
        Some(acc)
    } else if pairs[i].0 is Str {
        match spec_attr_step(acc, pairs[i].0->Str_0, pairs[i].1) {
            Some(acc2) => spec_attrs_from(pairs, i + 1, acc2),
            None => None,
        }
    } else {
        None
    }
}

/// How an attribute set is read from its wire shape: a string-keyed
/// mapping; a non-string key or a wrong-typed value under a known key
/// rejects it.
pub open spec fn spec_parse_attributes(v: ValueView) -> Result<
    Attributes,
    HlAttrDefineParseError,
> {
    if v matches ValueView::Mapping(pairs) {
        match spec_attrs_from(v->Mapping_0, 0, spec_attributes_default()) {
            Some(a) => Ok(a),
            None => Err(HlAttrDefineParseError::Attributes),
        }
    } else {
        Err(HlAttrDefineParseError::Attributes)
    }
}

impl Attributes {
    /// Reads an attribute set from its wire shape.
    #[verifier::loop_isolation(false)]
    pub fn try_from(value: Value) -> (r: Result<Attributes, HlAttrDefineParseError>)
        ensures
            r == spec_parse_attributes(value@),
    {
        let pairs = match value.into_pairs() {
            Some(ps) => ps,
            None => {
                return Err(HlAttrDefineParseError::Attributes);
            },
        };
        proof {
            crate::value::lemma_pair_seq_view(pairs@);
        }
        let ghost pvs = crate::value::pair_seq_view(pairs@);
        let mut acc = Attributes::default();
        let mut i: usize = 0;
        while i < pairs.len()
            invariant
                i <= pairs@.len(),
                spec_attrs_from(pvs, 0, spec_attributes_default()) == spec_attrs_from(
                    pvs,
                    i as int,
                    acc,
                ),
            decreases pairs@.len() - i,
        {
            let k = match pairs[i].0.as_str() {
                Some(s) => s,
                None => {
                    return Err(HlAttrDefineParseError::Attributes);
                },
            };
            let v = &pairs[i].1;
            proof {
                assert(pvs[i as int] == (value_view(pairs@[i as int].0), value_view(
                    pairs@[i as int].1,
                )));
            }
            let step = Attributes::apply_key(acc, k, v);
            match step {
                Some(acc2) => {
                    acc = acc2;
                },
                None => {
                    return Err(HlAttrDefineParseError::Attributes);
                },
            }
            i = i + 1;
        }
        Ok(acc)
    }

    /// Applies one map entry to the set, as [`spec_attr_step`] says.
    fn apply_key(acc: Attributes, k: &String, v: &Value) -> (r: Option<Attributes>)
        ensures
            r == spec_attr_step(acc, k@, v@),
    {
        if crate::value::str_eq(k.as_str(), "foreground") {
            match v.as_u64() {
                Some(x) => Some(Attributes { foreground: Some(x), ..acc }),
                None => None,
            }
        } else if crate::value::str_eq(k.as_str(), "background") {
            match v.as_u64() {
                Some(x) => Some(Attributes { background: Some(x), ..acc }),
                None => None,
            }
        } else if crate::value::str_eq(k.as_str(), "special") {
            match v.as_u64() {
                Some(x) => Some(Attributes { special: Some(x), ..acc }),
                None => None,
            }
        } else if crate::value::str_eq(k.as_str(), "reverse") {
            match v.as_bool() {
                Some(x) => Some(Attributes { reverse: Some(x), ..acc }),
                None => None,
            }
        } else if crate::value::str_eq(k.as_str(), "italic") {
            match v.as_bool() {
                Some(x) => Some(Attributes { italic: Some(x), ..acc }),
                None => None,
            }
        } else if crate::value::str_eq(k.as_str(), "bold") {
            match v.as_bool() {
                Some(x) => Some(Attributes { bold: Some(x), ..acc }),
                None => None,
            }
        } else if crate::value::str_eq(k.as_str(), "strikethrough") {
            match v.as_bool() {
                Some(x) => Some(Attributes { strikethrough: Some(x), ..acc }),
                None => None,
            }
        } else if crate::value::str_eq(k.as_str(), "underline") {
            match v.as_bool() {
                Some(x) => Some(Attributes { underline: Some(x), ..acc }),
                None => None,
            }
        } else if crate::value::str_eq(k.as_str(), "undercurl") {
            match v.as_bool() {
                Some(x) => Some(Attributes { undercurl: Some(x), ..acc }),
                None => None,
            }
        } else if crate::value::str_eq(k.as_str(), "underdouble") {
            match v.as_bool() {
                Some(x) => Some(Attributes { underdouble: Some(x), ..acc }),
                None => None,
            }
        } else if crate::value::str_eq(k.as_str(), "underdotted") {
            match v.as_bool() {
                Some(x) => Some(Attributes { underdotted: Some(x), ..acc }),
                None => None,
            }
        } else if crate::value::str_eq(k.as_str(), "underdashed") {
            match v.as_bool() {
                Some(x) => Some(Attributes { underdashed: Some(x), ..acc }),
                None => None,
            }
        } else if crate::value::str_eq(k.as_str(), "altfont") {
            match v.as_bool() {
                Some(x) => Some(Attributes { altfont: Some(x), ..acc }),
                None => None,
            }
        } else if crate::value::str_eq(k.as_str(), "blend") {
            match v.as_u64() {
                Some(x) => Some(Attributes { blend: Some(x), ..acc }),
                None => None,
            }
        } else {
            Some(acc)
        }
    }
}

/// How an info kind is read: one of the three known strings; anything
/// else — another string, or no string at all — is a hard failure with
/// the kind-specific error.
pub open spec fn spec_parse_kind(v: ValueView) -> Result<Kind, HlAttrDefineParseError> {
    if v is Str {
        let s = v->Str_0;
        if s == "ui"@ {
            Ok(Kind::Ui)
        } else if s == "syntax"@ {
            Ok(Kind::Syntax)
        } else if s == "terminal"@ {
            Ok(Kind::Terminal)
        } else {
            Err(HlAttrDefineParseError::Kind)
        }
    } else {
        Err(HlAttrDefineParseError::Kind)
    }
}

impl Kind {
    /// Reads an info kind from its wire shape.
    pub fn try_from(value: &Value) -> (r: Result<Kind, HlAttrDefineParseError>)
        ensures
            r == spec_parse_kind(value@),
    {
        let s = match value.as_str() {
            Some(s) => s,
            None => {
                return Err(HlAttrDefineParseError::Kind);
            },
        };
        if crate::value::str_eq(s.as_str(), "ui") {
            Ok(Kind::Ui)
        } else if crate::value::str_eq(s.as_str(), "syntax") {
            Ok(Kind::Syntax)
        } else if crate::value::str_eq(s.as_str(), "terminal") {
            Ok(Kind::Terminal)
        } else {
            Err(HlAttrDefineParseError::Kind)
        }
    }
}

/// A semantic description of the highlights active in a cell.
#[derive(Debug, Clone)]
pub struct Info {
    pub kind: Kind,
    /// Highlight name from the UI highlight groups; only for the UI kind.
    pub ui_name: Option<String>,
    /// Name of the triggering highlight group.
    pub hi_name: Option<String>,
    /// Unique numeric id of this item.
    pub id: Option<u64>,
}

/// The model of an info entry.
pub ghost struct InfoView {
    pub kind: Kind,
    pub ui_name: Option<Seq<char>>,
    pub hi_name: Option<Seq<char>>,
    pub id: Option<u64>,
}

impl View for Info {
    type V = InfoView;

    open spec fn view(&self) -> InfoView {
        InfoView {
            kind: self.kind,
            ui_name: match self.ui_name {
                Some(s) => Some(s@),
                None => None,
            },
            hi_name: match self.hi_name {
                Some(s) => Some(s@),
                None => None,
            },
            id: self.id,
        }
    }
}

/// The accumulating state of an info-map read.
pub ghost struct InfoAcc {
    pub kind: Option<Kind>,
    pub ui_name: Option<Seq<char>>,
    pub hi_name: Option<Seq<char>>,
    pub id: Option<u64>,
}

/// What one map entry does to an info entry under construction.  An
/// unrecognized kind string fails with the kind-specific error; any
/// other wrong-typed value under a known key fails as an info error;
/// unknown keys are ignored.
pub open spec fn spec_info_step(acc: InfoAcc, k: Seq<char>, v: ValueView) -> Result<
    InfoAcc,
    HlAttrDefineParseError,
> {
    if k == "kind"@ {
        match spec_parse_kind(v) {
            Ok(kind) => Ok(InfoAcc { kind: Some(kind), ..acc }),
            Err(e) => Err(e),
        }
    } else if k == "ui_name"@ {
        if v is Str {
            Ok(InfoAcc { ui_name: Some(v->Str_0), ..acc })
        } else {
            Err(HlAttrDefineParseError::Info)
        }
    } else if k == "hi_name"@ {
        if v is Str {
            Ok(InfoAcc { hi_name: Some(v->Str_0), ..acc })
        } else {
            Err(HlAttrDefineParseError::Info)
        }
    } else if k == "id"@ {
        match spec_as_u64(v) {
            Some(x) => Ok(InfoAcc { id: Some(x), ..acc }),
            None => Err(HlAttrDefineParseError::Info),
        }
    } else {
        Ok(acc)
    }
}

/// The info map read left to right from position `i`.
pub open spec fn spec_info_from(
    pairs: Seq<(ValueView, ValueView)>,
    i: int,
    acc: InfoAcc,
) -> Result<InfoAcc, HlAttrDefineParseError>
    decreases pairs.len() - i,
{
    if i < 0 || i >= pairs.len() {
        Ok(acc)
    } else if pairs[i].0 is Str {
        match spec_info_step(acc, pairs[i].0->Str_0, pairs[i].1) {
            Ok(acc2) => spec_info_from(pairs, i + 1, acc2),
            Err(e) => Err(e),
        }
    } else {
        Err(HlAttrDefineParseError::Info)
    }
}

/// How an info entry is read from its wire shape: a string-keyed
/// mapping whose `kind` field is required.
pub open spec fn spec_parse_info(v: ValueView) -> Result<InfoView, HlAttrDefineParseError> {
    if v matches ValueView::Mapping(pairs) {
        match spec_info_from(
            v->Mapping_0,
            0,
            InfoAcc { kind: None, ui_name: None, hi_name: None, id: None },
        ) {
            Ok(acc) => if acc.kind is Some {
                Ok(
                    InfoView {
                        kind: acc.kind->0,
                        ui_name: acc.ui_name,
                        hi_name: acc.hi_name,
                        id: acc.id,
                    },
                )
            } else {
                Err(HlAttrDefineParseError::Info)
            },
            Err(e) => Err(e),
        }
    } else {
        Err(HlAttrDefineParseError::Info)
    }
}

impl Info {
    /// Reads an info entry from its wire shape.
    #[verifier::loop_isolation(false)]
    pub fn try_from(value: Value) -> (r: Result<Info, HlAttrDefineParseError>)
        ensures
            match r {
                Ok(info) => spec_parse_info(value@) == Ok::<InfoView, HlAttrDefineParseError>(
                    info@,
                ),
                Err(e) => spec_parse_info(value@) == Err::<InfoView, HlAttrDefineParseError>(e),
            },
    {
        let pairs = match value.into_pairs() {
            Some(ps) => ps,
            None => {
                return Err(HlAttrDefineParseError::Info);
            },
        };
        proof {
            crate::value::lemma_pair_seq_view(pairs@);
        }
        let ghost pvs = crate::value::pair_seq_view(pairs@);
        let mut kind: Option<Kind> = None;
        let mut ui_name: Option<String> = None;
        let mut hi_name: Option<String> = None;
        let mut id: Option<u64> = None;
        let ghost acc0 = InfoAcc { kind: None, ui_name: None, hi_name: None, id: None };
        let mut i: usize = 0;
        while i < pairs.len()
            invariant
                i <= pairs@.len(),
                spec_info_from(pvs, 0, acc0) == spec_info_from(
                    pvs,
                    i as int,
                    InfoAcc {
                        kind,
                        ui_name: match ui_name {
                            Some(s) => Some(s@),
                            None => None,
                        },
                        hi_name: match hi_name {
                            Some(s) => Some(s@),
                            None => None,
                        },
                        id,
                    },
                ),
            decreases pairs@.len() - i,
        {
            let k = match pairs[i].0.as_str() {
                Some(s) => s,
                None => {
                    return Err(HlAttrDefineParseError::Info);
                },
            };
            let v = &pairs[i].1;
            proof {
                assert(pvs[i as int] == (value_view(pairs@[i as int].0), value_view(
                    pairs@[i as int].1,
                )));
            }
            if crate::value::str_eq(k.as_str(), "kind") {
                match Kind::try_from(v) {
                    Ok(x) => {
                        kind = Some(x);
                    },
                    Err(e) => {
                        return Err(e);
                    },
                }
            } else if crate::value::str_eq(k.as_str(), "ui_name") {
                match v.as_str() {
                    Some(s) => {
                        ui_name = Some(s.clone());
                    },
                    None => {
                        return Err(HlAttrDefineParseError::Info);
                    },
                }
            } else if crate::value::str_eq(k.as_str(), "hi_name") {
                match v.as_str() {
                    Some(s) => {
                        hi_name = Some(s.clone());
                    },
                    None => {
                        return Err(HlAttrDefineParseError::Info);
                    },
                }
            } else if crate::value::str_eq(k.as_str(), "id") {
                match v.as_u64() {
                    Some(x) => {
                        id = Some(x);
                    },
                    None => {
                        return Err(HlAttrDefineParseError::Info);
                    },
                }
            }
            i = i + 1;
        }
        match kind {
            Some(k) => Ok(Info { kind: k, ui_name, hi_name, id }),
            None => Err(HlAttrDefineParseError::Info),
        }
    }
}

} // verus!

verus! {

/// Add a highlight with an id to the highlight table.
#[derive(Debug, Clone)]
pub struct HlAttr {
    pub id: u64,
    /// Highlights in RGB format.
    pub rgb_attr: Attributes,
    /// Highlights in terminal 256-color codes.
    pub cterm_attr: Attributes,
    /// Semantic descriptions of the highlights active in a cell,
    /// ordered by priority from low to high.
    pub info: Vec<Info>,
}

/// The model of a highlight entry.
pub ghost struct HlAttrView {
    pub id: u64,
    pub rgb_attr: Attributes,
    pub cterm_attr: Attributes,
    pub info: Seq<InfoView>,
}

/// The models of an info sequence.
pub open spec fn info_views(info: Seq<Info>) -> Seq<InfoView> {
    info.map_values(|x: Info| x@)
}

impl View for HlAttr {
    type V = HlAttrView;

    open spec fn view(&self) -> HlAttrView {
        HlAttrView {
            id: self.id,
            rgb_attr: self.rgb_attr,
            cterm_attr: self.cterm_attr,
            info: info_views(self.info@),
        }
    }
}

/// The info list read left to right; the first failure rejects the
/// whole entry with its own error.
pub open spec fn spec_parse_infos(items: Seq<ValueView>, i: int) -> Result<
    Seq<InfoView>,
    HlAttrDefineParseError,
>
    decreases items.len() - i,
{
    if i < 0 || i >= items.len() {
        Ok(Seq::empty())
    } else {
        match spec_parse_info(items[i]) {
            Ok(x) => match spec_parse_infos(items, i + 1) {
                Ok(xs) => Ok(seq![x] + xs),
                Err(e) => Err(e),
            },
            Err(e) => Err(e),
        }
    }
}

/// How a highlight entry is read from its wire shape: an array of id,
/// RGB attributes, terminal attributes and an info list, each required.
pub open spec fn spec_parse_hl_attr(v: ValueView) -> Result<HlAttrView, HlAttrDefineParseError> {
    if v matches ValueView::Array(items) && v->Array_0.len() >= 4 {
        let items = v->Array_0;
        if spec_as_u64(items[0]) is None {
            Err(HlAttrDefineParseError::HlAttr)
        } else {
            match spec_parse_attributes(items[1]) {
                Ok(rgb_attr) => match spec_parse_attributes(items[2]) {
                    Ok(cterm_attr) => if items[3] is Array {
                        match spec_parse_infos(items[3]->Array_0, 0) {
                            Ok(info) => Ok(
                                HlAttrView {
                                    id: spec_as_u64(items[0])->0,
                                    rgb_attr,
                                    cterm_attr,
                                    info,
                                },
                            ),
                            Err(e) => Err(e),
                        }
                    } else {
                        Err(HlAttrDefineParseError::HlAttr)
                    },
                    Err(e) => Err(e),
                },
                Err(e) => Err(e),
            }
        }
    } else {
        Err(HlAttrDefineParseError::HlAttr)
    }
}

impl HlAttr {
    /// Reads one highlight entry from its wire shape.
    #[verifier::loop_isolation(false)]
    pub fn try_from(value: Value) -> (r: Result<HlAttr, HlAttrDefineParseError>)
        ensures
            match r {
                Ok(a) => spec_parse_hl_attr(value@) == Ok::<HlAttrView, HlAttrDefineParseError>(
                    a@,
                ),
                Err(e) => spec_parse_hl_attr(value@) == Err::<HlAttrView, HlAttrDefineParseError>(
                    e,
                ),
            },
    {
        let items = match value.into_array() {
            Some(items) => items,
            None => {
                return Err(HlAttrDefineParseError::HlAttr);
            },
        };
        proof {
            crate::value::lemma_seq_view(items@);
        }
        if items.len() < 4 {
            return Err(HlAttrDefineParseError::HlAttr);
        }
        let id = match items[0].as_u64() {
            Some(x) => x,
            None => {
                return Err(HlAttrDefineParseError::HlAttr);
            },
        };
        let mut it = items;
        let info_v = crate::value::take_at(&mut it, 3);
        let cterm_v = crate::value::take_at(&mut it, 2);
        let rgb_v = crate::value::take_at(&mut it, 1);
        let rgb_attr = match Attributes::try_from(rgb_v) {
            Ok(a) => a,
            Err(e) => {
                return Err(e);
            },
        };
        let cterm_attr = match Attributes::try_from(cterm_v) {
            Ok(a) => a,
            Err(e) => {
                return Err(e);
            },
        };
        let info_items = match info_v.into_array() {
            Some(xs) => xs,
            None => {
                return Err(HlAttrDefineParseError::HlAttr);
            },
        };
        proof {
            crate::value::lemma_seq_view(info_items@);
        }
        let ghost ivs = seq_view(info_items@);
        let mut info: Vec<Info> = Vec::new();
        let mut rest = info_items;
        let mut i: usize = 0;
        proof {
            assert(info_views(info@) =~= Seq::<InfoView>::empty());
        }
        while i < rest.len()
            invariant
                i <= rest@.len(),
                rest@.len() == ivs.len(),
                forall|j: int| i <= j < rest@.len() ==> value_view(rest@[j]) == ivs[j],
                spec_parse_infos(ivs, 0) == (match spec_parse_infos(ivs, i as int) {
                    Ok(xs) => Ok::<Seq<InfoView>, HlAttrDefineParseError>(
                        info_views(info@) + xs,
                    ),
                    Err(e) => Err::<Seq<InfoView>, HlAttrDefineParseError>(e),
                }),
            decreases rest@.len() - i,
        {
            let ghost rest_pre = rest@;
            let iv = crate::value::take_at(&mut rest, i);
            proof {
                assert(value_view(iv) == ivs[i as int]);
            }
            let ghost pre = info_views(info@);
            match Info::try_from(iv) {
                Ok(x) => {
                    info.push(x);
                    proof {
                        assert(info_views(info@) =~= pre.push(info@.last()@));
                        let tail = spec_parse_infos(ivs, i as int + 1);
                        if tail is Ok {
                            let xs = tail->Ok_0;
                            assert(pre + (seq![info@.last()@] + xs) =~= info_views(info@) + xs);
                        }
                    }
                },
                Err(e) => {
                    return Err(e);
                },
            }
            i = i + 1;
        }
        proof {
            assert(spec_parse_infos(ivs, ivs.len() as int) == Ok::<
                Seq<InfoView>,
                HlAttrDefineParseError,
            >(Seq::empty()));
            assert(info_views(info@) + Seq::<InfoView>::empty() =~= info_views(info@));
        }
        Ok(HlAttr { id, rgb_attr, cterm_attr, info })
    }
}

/// One batch of additions to the highlight table.
#[derive(Debug, Clone)]
pub struct HlAttrDefine {
    pub hl_attrs: Vec<HlAttr>,
}

/// The models of a highlight-entry sequence.
pub open spec fn hl_attr_views(attrs: Seq<HlAttr>) -> Seq<HlAttrView> {
    attrs.map_values(|a: HlAttr| a@)
}

impl View for HlAttrDefine {
    type V = Seq<HlAttrView>;

    open spec fn view(&self) -> Seq<HlAttrView> {
        hl_attr_views(self.hl_attrs@)
    }
}

/// The entry list read left to right; the first failure rejects the
/// whole batch with its own error.
pub open spec fn spec_parse_hl_attrs(items: Seq<ValueView>, i: int) -> Result<
    Seq<HlAttrView>,
    HlAttrDefineParseError,
>
    decreases items.len() - i,
{
    if i < 0 || i >= items.len() {
        Ok(Seq::empty())
    } else {
        match spec_parse_hl_attr(items[i]) {
            Ok(x) => match spec_parse_hl_attrs(items, i + 1) {
                Ok(xs) => Ok(seq![x] + xs),
                Err(e) => Err(e),
            },
            Err(e) => Err(e),
        }
    }
}

impl HlAttrDefine {
    /// Reads a batch of highlight entries, one per notification
    /// argument.
    #[verifier::loop_isolation(false)]
    pub fn try_from(values: Vec<Value>) -> (r: Result<HlAttrDefine, HlAttrDefineParseError>)
        ensures
            match r {
                Ok(d) => spec_parse_hl_attrs(seq_view(values@), 0) == Ok::<
                    Seq<HlAttrView>,
                    HlAttrDefineParseError,
                >(d@),
                Err(e) => spec_parse_hl_attrs(seq_view(values@), 0) == Err::<
                    Seq<HlAttrView>,
                    HlAttrDefineParseError,
                >(e),
            },
    {
        proof {
            crate::value::lemma_seq_view(values@);
        }
        let ghost avs = seq_view(values@);
        let mut hl_attrs: Vec<HlAttr> = Vec::new();
        let mut rest = values;
        let mut i: usize = 0;
        proof {
            assert(hl_attr_views(hl_attrs@) =~= Seq::<HlAttrView>::empty());
        }
        while i < rest.len()
            invariant
                i <= rest@.len(),
                rest@.len() == avs.len(),
                forall|j: int| i <= j < rest@.len() ==> value_view(rest@[j]) == avs[j],
                spec_parse_hl_attrs(avs, 0) == (match spec_parse_hl_attrs(avs, i as int) {
                    Ok(xs) => Ok::<Seq<HlAttrView>, HlAttrDefineParseError>(
                        hl_attr_views(hl_attrs@) + xs,
                    ),
                    Err(e) => Err::<Seq<HlAttrView>, HlAttrDefineParseError>(e),
                }),
            decreases rest@.len() - i,
        {
            let av = crate::value::take_at(&mut rest, i);
            proof {
                assert(value_view(av) == avs[i as int]);
            }
            let ghost pre = hl_attr_views(hl_attrs@);
            match HlAttr::try_from(av) {
                Ok(x) => {
                    hl_attrs.push(x);
                    proof {
                        assert(hl_attr_views(hl_attrs@) =~= pre.push(hl_attrs@.last()@));
                        let tail = spec_parse_hl_attrs(avs, i as int + 1);
                        if tail is Ok {
                            let xs = tail->Ok_0;
                            assert(pre + (seq![hl_attrs@.last()@] + xs) =~= hl_attr_views(
                                hl_attrs@,
                            ) + xs);
                        }
                    }
                },
                Err(e) => {
                    return Err(e);
                },
            }
            i = i + 1;
        }
        proof {
            assert(spec_parse_hl_attrs(avs, avs.len() as int) == Ok::<
                Seq<HlAttrView>,
                HlAttrDefineParseError,
            >(Seq::empty()));
            assert(hl_attr_views(hl_attrs@) + Seq::<HlAttrView>::empty() =~= hl_attr_views(
                hl_attrs@,
            ));
        }
        Ok(HlAttrDefine { hl_attrs })
    }
}

} // verus!
