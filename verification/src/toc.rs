//! The table of contents: whether and where the document has one, and how
//! each section heading joins its tree.
use vstd::prelude::*;
use vstd::string::StringExecFns;

use crate::attrs::{lookup, AttrValue, AttrValueV};
use crate::blocks::SpecialSection;
use crate::parser::{Parser, TableOfContents, TocNode, TocPosition};

verus! {

/// A table of contents entry as the specifications see it.
pub struct TocNodeV {
    pub level: u8,
    pub title: Seq<char>,
    pub id: Option<Seq<char>>,
    pub special_sect: Option<SpecialSection>,
    pub children: Seq<TocNodeV>,
}

pub open spec fn toc_view(n: TocNode) -> TocNodeV
    decreases n, 1int,
{
    TocNodeV {
        level: n.level,
        title: n.title@,
        id: crate::text::opt_string_view(n.id),
        special_sect: n.special_sect,
        children: tocs_prefix(n.children@, n.children@.len() as int),
    }
}

/// The views of the first `k` entries.
pub open spec fn tocs_prefix(v: Seq<TocNode>, k: int) -> Seq<TocNodeV>
    decreases v, k,
{
    if k <= 0 || k > v.len() {
        Seq::empty()
    } else {
        tocs_prefix(v, k - 1).push(toc_view(v[k - 1]))
    }
}

pub open spec fn tocs_view(v: Seq<TocNode>) -> Seq<TocNodeV> {
    tocs_prefix(v, v.len() as int)
}

proof fn lemma_tocs_prefix_push(v: Seq<TocNode>, x: TocNode, k: int)
    requires
        0 <= k <= v.len(),
    ensures
        tocs_prefix(v.push(x), k) == tocs_prefix(v, k),
    decreases k,
{
    if k > 0 {
        lemma_tocs_prefix_push(v, x, k - 1);
        assert(v.push(x)[k - 1] == v[k - 1]);
    }
}

proof fn lemma_tocs_push(v: Seq<TocNode>, x: TocNode)
    ensures
        tocs_view(v.push(x)) == tocs_view(v).push(toc_view(x)),
{
    lemma_tocs_prefix_push(v, x, v.len() as int);
    assert(v.push(x)[v.len() as int] == x);
}

proof fn lemma_tocs_prefix_len(v: Seq<TocNode>, k: int)
    requires
        0 <= k <= v.len(),
    ensures
        tocs_prefix(v, k).len() == k,
        forall|i: int| 0 <= i < k ==> #[trigger] tocs_prefix(v, k)[i] == toc_view(v[i]),
    decreases k,
{
    if k > 0 {
        lemma_tocs_prefix_len(v, k - 1);
    }
}

proof fn lemma_tocs_drop_last(v: Seq<TocNode>)
    requires
        v.len() > 0,
    ensures
        tocs_view(v.drop_last()) == tocs_view(v).drop_last(),
        tocs_view(v).last() == toc_view(v.last()),
{
    lemma_tocs_prefix_len(v, v.len() as int);
    lemma_tocs_prefix_len(v.drop_last(), v.len() - 1);
    assert(tocs_view(v.drop_last()) =~= tocs_view(v).drop_last());
}

/// Whether a path of `steps` last entries exists to descend along.
pub open spec fn can_descend(nodes: Seq<TocNodeV>, steps: nat) -> bool
    decreases steps,
{
    steps == 0 || (nodes.len() > 0 && can_descend(nodes.last().children, (steps - 1) as nat))
}

/// The entries with `node` added under the last entry `steps` levels down.
pub open spec fn inserted_at(nodes: Seq<TocNodeV>, steps: nat, node: TocNodeV) -> Seq<TocNodeV>
    decreases steps,
{
    if steps == 0 || nodes.len() == 0 {
        nodes.push(node)
    } else {
        let last = nodes.last();
        nodes.update(
            nodes.len() - 1,
            TocNodeV { children: inserted_at(last.children, (steps - 1) as nat, node), ..last },
        )
    }
}

fn insert_toc(nodes: &mut Vec<TocNode>, steps: u8, node: TocNode)
    requires
        can_descend(tocs_view(old(nodes)@), steps as nat),
    ensures
        tocs_view(final(nodes)@) == inserted_at(tocs_view(old(nodes)@), steps as nat, toc_view(node)),
    decreases steps,
{
    if steps == 0 {
        proof {
            lemma_tocs_push(nodes@, node);
        }
        nodes.push(node);
        return;
    }
    let ghost before = nodes@;
    proof {
        lemma_tocs_drop_last(before);
    }
    let mut last = nodes.pop().unwrap();
    assert(nodes@ =~= before.drop_last());
    insert_toc(&mut last.children, steps - 1, node);
    let ghost lv = toc_view(last);
    proof {
        lemma_tocs_push(nodes@, last);
    }
    nodes.push(last);
    proof {
        let bv = tocs_view(before);
        assert(tocs_view(nodes@) =~= inserted_at(bv, steps as nat, toc_view(node)));
    }
}

/// How a heading joins the table of contents. Headings deeper than
/// `toclevels` stay out. A heading at the top level, or shallower than the
/// last top-level entry, joins the top level; otherwise it is put as many
/// levels down along the last entries as its level exceeds that of the last
/// top-level entry (a level-2 special section under a level-0 part with no
/// level-1 entries counts as level 1).
pub open spec fn toc_steps(nodes: Seq<TocNodeV>, authored_level: u8, semantic_level: u8) -> nat {
    if nodes.len() == 0 {
        0
    } else {
        let last_level = nodes.last().level;
        if authored_level < last_level || authored_level == 0 {
            0
        } else {
            let depth = if last_level == 0 && semantic_level == 2 && !(exists|i: int|
                0 <= i < nodes.last().children.len() && (#[trigger] nodes.last().children[i]).level == 1) {
                1
            } else {
                semantic_level
            };
            if depth > last_level {
                (depth - last_level) as nat
            } else {
                0
            }
        }
    }
}

/// The `toclevels` attribute as a number, 2 unless it is one.
pub open spec fn toclevels_of(attrs: Seq<(Seq<char>, AttrValueV)>) -> u8 {
    match lookup(attrs, "toclevels"@) {
        Some(AttrValueV::String(s)) => match crate::table_spec::u8_of(s) {
            Some(v) => v,
            None => 2,
        },
        _ => 2,
    }
}

/// The table of contents once a heading is added: one at a level within
/// `toclevels` joins the tree at the place `toc_steps` finds; a document
/// without a table of contents keeps none.
pub open spec fn toc_pushed(
    before: Option<TableOfContents>,
    after: Option<TableOfContents>,
    attrs: Seq<(Seq<char>, AttrValueV)>,
    authored_level: u8,
    semantic_level: u8,
    heading: Seq<char>,
    id: Option<Seq<char>>,
    special_sect: Option<SpecialSection>,
) -> bool {
    match before {
        None => after is None,
        Some(toc) => after matches Some(t) && t.title@ == toc.title@ && t.position == toc.position && tocs_view(
            t.nodes@,
        ) == if authored_level > toclevels_of(attrs) {
            tocs_view(toc.nodes@)
        } else {
            inserted_at(
                tocs_view(toc.nodes@),
                toc_steps(tocs_view(toc.nodes@), authored_level, semantic_level),
                TocNodeV { level: authored_level, title: heading, id, special_sect, children: Seq::empty() },
            )
        },
    }
}

impl Parser {
    /// Adds a section heading to the table of contents, if the document
    /// has one.
    pub fn push_toc_node(
        &mut self,
        authored_level: u8,
        semantic_level: u8,
        heading: String,
        as_ref: Option<&String>,
        special_sect: Option<SpecialSection>,
    )
        requires
            authored_level <= toclevels_of(old(self).attrs@) ==> (old(self).toc matches Some(toc) ==> can_descend(
                tocs_view(toc.nodes@),
                toc_steps(tocs_view(toc.nodes@), authored_level, semantic_level),
            )),
        ensures
            toc_pushed(
                old(self).toc,
                final(self).toc,
                old(self).attrs@,
                authored_level,
                semantic_level,
                heading@,
                match as_ref {
                    Some(r) => Some(r@),
                    None => None,
                },
                special_sect,
            ),
            final(self).attrs@ == old(self).attrs@,
            final(self).errors == old(self).errors,
            final(self).anchor_ids == old(self).anchor_ids,
            final(self).included_files == old(self).included_files,
            final(self).leveloffset == old(self).leveloffset,
    {
        let toclevels = match self.attrs.get("toclevels") {
            Some(AttrValue::String(s)) => {
                let cs = crate::text::chars_of(s.as_str());
                match crate::text::parse_u8(cs.as_slice()) {
                    Some(v) => v,
                    None => 2,
                }
            },
            _ => 2,
        };
        let mut toc = match self.toc.take() {
            Some(t) => t,
            None => return,
        };
        let ghost tv = tocs_view(toc.nodes@);
        if authored_level > toclevels {
            self.toc = Some(toc);
            return;
        }
        let node = TocNode {
            level: authored_level,
            title: heading,
            id: match as_ref {
                Some(r) => Some(r.clone()),
                None => None,
            },
            special_sect,
            children: Vec::new(),
        };
        assert(tocs_view(node.children@) =~= Seq::<TocNodeV>::empty());
        let n = toc.nodes.len();
        let steps: u8 = if n == 0 {
            0
        } else {
            proof {
                lemma_tocs_drop_last(toc.nodes@);
            }
            let last = &toc.nodes[n - 1];
            let last_level = last.level;
            if authored_level < last_level || authored_level == 0 {
                0
            } else {
                let mut has_level_one = false;
                let mut i: usize = 0;
                let ghost kids = tocs_view(last.children@);
                proof {
                    lemma_tocs_prefix_len(last.children@, last.children@.len() as int);
                }
                while i < last.children.len()
                    invariant
                        0 <= i <= last.children@.len(),
                        kids == tocs_view(last.children@),
                        kids.len() == last.children@.len(),
                        forall|j: int| 0 <= j < kids.len() ==> #[trigger] kids[j] == toc_view(last.children@[j]),
                        has_level_one == exists|j: int| 0 <= j < i && (#[trigger] kids[j]).level == 1,
                    decreases last.children@.len() - i,
                {
                    if last.children[i].level == 1 {
                        assert(kids[i as int].level == 1);
                        has_level_one = true;
                    }
                    i = i + 1;
                }
                let depth = if last_level == 0 && semantic_level == 2 && !has_level_one {
                    1
                } else {
                    semantic_level
                };
                if depth > last_level {
                    depth - last_level
                } else {
                    0
                }
            }
        };
        assert(steps as nat == toc_steps(tv, authored_level, semantic_level));
        insert_toc(&mut toc.nodes, steps, node);
        self.toc = Some(toc);
    }

    /// Sets up the table of contents the `toc` attribute asks for: set
    /// means automatic placement; `left`, `right`, `preamble`, `macro` or
    /// `auto` name it; anything else (or unset) means none. Its title is
    /// `toc-title`, by default "Table of Contents".
    pub fn prepare_toc(&mut self)
        ensures
            match toc_position_of(lookup(old(self).attrs@, "toc"@)) {
                Some(p) => final(self).toc matches Some(t) && t.position == p && t.nodes@.len() == 0
                    && t.title@ == match lookup(old(self).attrs@, "toc-title"@) {
                    Some(AttrValueV::String(s)) => s,
                    _ => "Table of Contents"@,
                },
                None => final(self).toc == old(self).toc,
            },
            final(self).attrs@ == old(self).attrs@,
    {
        let position = match self.attrs.get("toc") {
            None => return,
            Some(AttrValue::Bool(false)) => return,
            Some(AttrValue::Bool(true)) => TocPosition::Auto,
            Some(AttrValue::String(s)) => {
                let v = s.as_str();
                if crate::text::str_eq(v, "left") {
                    TocPosition::Left
                } else if crate::text::str_eq(v, "right") {
                    TocPosition::Right
                } else if crate::text::str_eq(v, "preamble") {
                    TocPosition::Preamble
                } else if crate::text::str_eq(v, "macro") {
                    TocPosition::Macro
                } else if crate::text::str_eq(v, "auto") {
                    TocPosition::Auto
                } else {
                    return;
                }
            },
        };
        let title = match self.attrs.get("toc-title") {
            Some(AttrValue::String(s)) => s.clone(),
            _ => String::from_str("Table of Contents"),
        };
        self.toc = Some(TableOfContents { title, nodes: Vec::new(), position });
    }
}

/// Where the `toc` attribute puts the table of contents, if anywhere.
pub open spec fn toc_position_of(v: Option<AttrValueV>) -> Option<TocPosition> {
    match v {
        Some(AttrValueV::Bool(true)) => Some(TocPosition::Auto),
        Some(AttrValueV::String(s)) => if s == "left"@ {
            Some(TocPosition::Left)
        } else if s == "right"@ {
            Some(TocPosition::Right)
        } else if s == "preamble"@ {
            Some(TocPosition::Preamble)
        } else if s == "macro"@ {
            Some(TocPosition::Macro)
        } else if s == "auto"@ {
            Some(TocPosition::Auto)
        } else {
            None
        },
        _ => None,
    }
}


/// A heading more than one level below the section it is in.
pub open spec fn out_of_sequence(semantic_level: u8, last_level: u8) -> bool {
    semantic_level > last_level && semantic_level - last_level > 1
}

/// The report for a heading out of sequence: the level expected, and its
/// `=` marker.
pub open spec fn out_of_sequence_message(last_level: nat) -> Seq<char> {
    "Section title out of sequence: expected level "@ + crate::text::decimal(last_level + 1) + " `"@ + Seq::new(
        last_level + 2,
        |i: int| '=',
    ) + "`"@
}

fn equals_marker(n: usize) -> (r: String)
    ensures
        r@ == Seq::new(n as nat, |i: int| '='),
{
    let mut cs: Vec<char> = Vec::new();
    let mut i: usize = 0;
    while i < n
        invariant
            0 <= i <= n,
            cs@ == Seq::new(i as nat, |k: int| '='),
        decreases n - i,
    {
        cs.push('=');
        assert(cs@ =~= Seq::new((i + 1) as nat, |k: int| '='));
        i = i + 1;
    }
    crate::text::string_of(cs.as_slice())
}

/// The report for a heading out of sequence inside a section at `last_level`.
pub(crate) fn out_of_sequence_text(last_level: u8) -> (s: String)
    ensures
        s@ == out_of_sequence_message(last_level as nat),
{
    let expected = crate::text::decimal_string(last_level as u32 + 1);
    let marker = equals_marker(last_level as usize + 2);
    let mut msg: Vec<char> = crate::text::chars_of("Section title out of sequence: expected level ");
    crate::attr_list::append_chars(&mut msg, &expected);
    crate::attr_list::append_chars(&mut msg, &crate::text::chars_of(" `"));
    crate::attr_list::append_chars(&mut msg, &crate::text::chars_of(marker.as_str()));
    crate::attr_list::append_chars(&mut msg, &crate::text::chars_of("`"));
    crate::text::string_of(msg.as_slice())
}

impl Parser {
    /// Opens a section whose heading stands at `semantic_level` (written at
    /// `authored_level`) inside a section at `last_level`: a heading more
    /// than one level deeper is reported as out of sequence and left out of
    /// the table of contents; any other joins it. Returns whether it was out
    /// of sequence.
    pub fn enter_section(
        &mut self,
        last_level: u8,
        semantic_level: u8,
        authored_level: u8,
        heading: String,
        id: Option<&String>,
        special_sect: Option<SpecialSection>,
    ) -> (out: bool)
        requires
            !out_of_sequence(semantic_level, last_level) && authored_level <= toclevels_of(old(self).attrs@) ==> (
            old(self).toc matches Some(toc) ==> can_descend(
                tocs_view(toc.nodes@),
                toc_steps(tocs_view(toc.nodes@), authored_level, semantic_level),
            )),
        ensures
            out == out_of_sequence(semantic_level, last_level),
            out ==> final(self).toc == old(self).toc && crate::include_directive::strings_of(final(self).errors@)
                == crate::include_directive::strings_of(old(self).errors@).push(
                out_of_sequence_message(last_level as nat),
            ),
            !out ==> final(self).errors == old(self).errors && toc_pushed(
                old(self).toc,
                final(self).toc,
                old(self).attrs@,
                authored_level,
                semantic_level,
                heading@,
                match id {
                    Some(r) => Some(r@),
                    None => None,
                },
                special_sect,
            ),
            final(self).attrs@ == old(self).attrs@,
            final(self).anchor_ids == old(self).anchor_ids,
            final(self).included_files == old(self).included_files,
            final(self).leveloffset == old(self).leveloffset,
    {
        if semantic_level > last_level && semantic_level - last_level > 1 {
            let s = out_of_sequence_text(last_level);
            crate::include_directive::push_error(&mut self.errors, s);
            true
        } else {
            self.push_toc_node(authored_level, semantic_level, heading, id, special_sect);
            false
        }
    }
}

} // verus!
