//! Substitution steps and their customisation: the `subs` block attribute
//! (`subs="attributes+,+quotes,-macros"`) and the targets of pass macros
//! (`pass:q,a[...]`).
use vstd::prelude::*;

verus! {

/// One substitution step.
#[derive(Debug, Clone, Copy, PartialEq, Eq, Structural)]
pub enum Subs {
    SpecialChars,
    InlineFormatting,
    AttrRefs,
    CharReplacement,
    Macros,
    PostReplacement,
    Callouts,
}

/// The substitution steps applied, in order, each at most once.
#[derive(Debug, Clone, PartialEq, Eq)]
pub struct Substitutions {
    steps: Vec<Subs>,
}

impl View for Substitutions {
    type V = Seq<Subs>;

    closed spec fn view(&self) -> Seq<Subs> {
        self.steps@
    }
}

/// The steps of normal text, in the order they run.
pub open spec fn normal_steps() -> Seq<Subs> {
    seq![
        Subs::SpecialChars,
        Subs::InlineFormatting,
        Subs::AttrRefs,
        Subs::CharReplacement,
        Subs::Macros,
        Subs::PostReplacement,
    ]
}

/// Adds a step at the end, unless it is already there.
pub open spec fn inserted(s: Seq<Subs>, step: Subs) -> Seq<Subs> {
    if s.contains(step) {
        s
    } else {
        s.push(step)
    }
}

/// Adds a step at the front, unless it is already there.
pub open spec fn prepended(s: Seq<Subs>, step: Subs) -> Seq<Subs> {
    if s.contains(step) {
        s
    } else {
        seq![step] + s
    }
}

/// Drops a step.
pub open spec fn removed(s: Seq<Subs>, step: Subs) -> Seq<Subs>
    decreases s.len(),
{
    if s.len() == 0 {
        s
    } else if s.last() == step {
        removed(s.drop_last(), step)
    } else {
        removed(s.drop_last(), step).push(s.last())
    }
}

impl Substitutions {
    /// The well-formedness of a set of steps: none occurs twice.
    pub open spec fn wf(&self) -> bool {
        self@.no_duplicates()
    }

    pub fn none() -> (r: Substitutions)
        ensures
            r@ == Seq::<Subs>::empty(),
            r.wf(),
    {
        Substitutions { steps: Vec::new() }
    }

    /// Every step of normal text.
    pub fn all() -> (r: Substitutions)
        ensures
            r@ == normal_steps(),
            r.wf(),
    {
        let steps = vec![
            Subs::SpecialChars,
            Subs::InlineFormatting,
            Subs::AttrRefs,
            Subs::CharReplacement,
            Subs::Macros,
            Subs::PostReplacement,
        ];
        assert(steps@ =~= normal_steps());
        Substitutions { steps }
    }

    /// The steps of normal text (the same as `all`).
    pub fn normal() -> (r: Substitutions)
        ensures
            r@ == normal_steps(),
            r.wf(),
    {
        Substitutions::all()
    }

    pub fn only_special_chars() -> (r: Substitutions)
        ensures
            r@ == seq![Subs::SpecialChars],
            r.wf(),
    {
        let steps = vec![Subs::SpecialChars];
        assert(steps@ =~= seq![Subs::SpecialChars]);
        Substitutions { steps }
    }

    pub fn contains(&self, step: Subs) -> (r: bool)
        ensures
            r == self@.contains(step),
    {
        let mut i: usize = 0;
        while i < self.steps.len()
            invariant
                0 <= i <= self@.len(),
                forall|j: int| 0 <= j < i ==> self@[j] != step,
            decreases self@.len() - i,
        {
            if self.steps[i] == step {
                assert(self@[i as int] == step);
                return true;
            }
            i = i + 1;
        }
        false
    }

    /// Adds a step at the end, unless it is already there.
    pub fn insert(&mut self, step: Subs)
        requires
            old(self).wf(),
        ensures
            final(self)@ == inserted(old(self)@, step),
            final(self).wf(),
    {
        if !self.contains(step) {
            self.steps.push(step);
            proof {
                let s = old(self)@;
                assert forall|a: int, b: int| 0 <= a < b < self@.len() implies self@[a] != self@[b] by {
                    if b == s.len() {
                        assert(s.contains(s[a]));
                    }
                }
            }
        }
    }

    /// Adds a step at the front, unless it is already there.
    pub fn prepend(&mut self, step: Subs)
        requires
            old(self).wf(),
        ensures
            final(self)@ == prepended(old(self)@, step),
            final(self).wf(),
    {
        if !self.contains(step) {
            self.steps.insert(0, step);
            proof {
                let s = old(self)@;
                assert(self@ =~= seq![step] + s);
                assert forall|a: int, b: int| 0 <= a < b < self@.len() implies self@[a] != self@[b] by {
                    if a == 0 {
                        assert(s.contains(s[b - 1]));
                    }
                }
            }
        }
    }

    /// Drops a step.
    pub fn remove(&mut self, step: Subs)
        requires
            old(self).wf(),
        ensures
            final(self)@ == removed(old(self)@, step),
            final(self).wf(),
    {
        let ghost s = old(self)@;
        let mut kept: Vec<Subs> = Vec::new();
        let mut i: usize = 0;
        while i < self.steps.len()
            invariant
                0 <= i <= s.len(),
                self@ == s,
                s.no_duplicates(),
                kept@ == removed(s.take(i as int), step),
                kept@.no_duplicates(),
                forall|x: Subs| kept@.contains(x) ==> s.take(i as int).contains(x),
            decreases s.len() - i,
        {
            let cur = self.steps[i];
            proof {
                assert(s.take(i + 1).drop_last() =~= s.take(i as int));
            }
            if cur != step {
                proof {
                    assert forall|a: int, b: int| 0 <= a < b < kept@.push(cur).len() implies kept@.push(cur)[a]
                        != kept@.push(cur)[b] by {
                        if b == kept@.len() && kept@[a] == cur {
                            assert(kept@.contains(kept@[a]));
                            let j = choose|j: int| 0 <= j < i && s.take(i as int)[j] == kept@[a];
                            assert(s[j] == s[i as int]);
                        }
                    }
                    assert forall|x: Subs| kept@.push(cur).contains(x) implies s.take(i + 1).contains(x) by {
                        if kept@.contains(x) {
                            let j = choose|j: int| 0 <= j < i && s.take(i as int)[j] == x;
                            assert(s.take(i + 1)[j] == x);
                        } else {
                            assert(s.take(i + 1)[i as int] == x);
                        }
                    }
                }
                kept.push(cur);
            } else {
                proof {
                    assert forall|x: Subs| kept@.contains(x) implies s.take(i + 1).contains(x) by {
                        let j = choose|j: int| 0 <= j < i && s.take(i as int)[j] == x;
                        assert(s.take(i + 1)[j] == x);
                    }
                }
            }
            i = i + 1;
        }
        assert(s.take(i as int) =~= s);
        self.steps = kept;
    }
}

/// What one value of a pass macro's target does to the steps.
pub open spec fn pass_step(s: Seq<Subs>, v: Seq<char>) -> Seq<Subs> {
    if v == "c"@ || v == "specialchars"@ {
        inserted(s, Subs::SpecialChars)
    } else if v == "a"@ || v == "attributes"@ {
        inserted(s, Subs::AttrRefs)
    } else if v == "r"@ || v == "replacements"@ {
        inserted(s, Subs::CharReplacement)
    } else if v == "m"@ || v == "macros"@ {
        inserted(s, Subs::Macros)
    } else if v == "q"@ || v == "quotes"@ {
        inserted(s, Subs::InlineFormatting)
    } else if v == "v"@ || v == "verbatim"@ {
        inserted(s, Subs::SpecialChars)
    } else if v == "n"@ || v == "normal"@ {
        normal_steps()
    } else if v == "p"@ {
        inserted(s, Subs::PostReplacement)
    } else {
        s
    }
}

/// The values of a pass macro's target applied in turn, from no steps.
pub open spec fn pass_steps(vs: Seq<Seq<char>>) -> Seq<Subs>
    decreases vs.len(),
{
    if vs.len() == 0 {
        Seq::empty()
    } else {
        pass_step(pass_steps(vs.drop_last()), vs.last())
    }
}

/// The steps a pass macro's target (`c,q`, `specialchars`, `n`, ...)
/// names; an empty target names none.
pub open spec fn pass_target_steps(target: Seq<char>) -> Seq<Subs> {
    if target.len() == 0 {
        Seq::empty()
    } else {
        pass_steps(crate::text::split_chars(target, ',', ','))
    }
}

proof fn lemma_normal_wf()
    ensures
        normal_steps().no_duplicates(),
{
}

impl Substitutions {
    /// The steps a pass macro's target names.
    pub fn from_pass_macro_target(target: &str) -> (r: Substitutions)
        ensures
            r@ == pass_target_steps(target@),
            r.wf(),
    {
        let cs = crate::text::chars_of(target);
        if cs.len() == 0 {
            return Substitutions::none();
        }
        let mut subs = Substitutions::none();
        let parts = crate::text::split_bounds(cs.as_slice(), ',', ',');
        let ghost ps = crate::text::split_chars(cs@, ',', ',');
        let mut p: usize = 0;
        while p < parts.len()
            invariant
                0 <= p <= parts@.len(),
                parts@.len() == ps.len(),
                forall|q: int|
                    0 <= q < parts@.len() ==> (#[trigger] parts@[q]).0 <= parts@[q].1 <= cs@.len()
                        && cs@.subrange(parts@[q].0 as int, parts@[q].1 as int) == ps[q],
                subs@ == pass_steps(ps.take(p as int)),
                subs.wf(),
            decreases parts@.len() - p,
        {
            let (s0, e0) = parts[p];
            let value = crate::text::string_of(&cs.as_slice()[s0..e0]);
            let v = value.as_str();
            proof {
                assert(parts@[p as int].0 <= parts@[p as int].1 <= cs@.len());
                assert(ps.take(p + 1).drop_last() =~= ps.take(p as int));
                lemma_normal_wf();
            }
            if crate::text::str_eq(v, "c") || crate::text::str_eq(v, "specialchars") {
                subs.insert(Subs::SpecialChars);
            } else if crate::text::str_eq(v, "a") || crate::text::str_eq(v, "attributes") {
                subs.insert(Subs::AttrRefs);
            } else if crate::text::str_eq(v, "r") || crate::text::str_eq(v, "replacements") {
                subs.insert(Subs::CharReplacement);
            } else if crate::text::str_eq(v, "m") || crate::text::str_eq(v, "macros") {
                subs.insert(Subs::Macros);
            } else if crate::text::str_eq(v, "q") || crate::text::str_eq(v, "quotes") {
                subs.insert(Subs::InlineFormatting);
            } else if crate::text::str_eq(v, "v") || crate::text::str_eq(v, "verbatim") {
                subs.insert(Subs::SpecialChars);
            } else if crate::text::str_eq(v, "n") || crate::text::str_eq(v, "normal") {
                subs = Substitutions::normal();
            } else if crate::text::str_eq(v, "p") {
                subs.insert(Subs::PostReplacement);
            }
            p = p + 1;
        }
        assert(ps.take(p as int) =~= ps);
        subs
    }

    /// The steps of a `+`-delimited passthrough: none for `+++`, special
    /// characters only for `+` and `++`.
    pub fn from_pass_plus_len(len: usize) -> (r: Substitutions)
        ensures
            r@ == if len == 3 {
                Seq::<Subs>::empty()
            } else {
                seq![Subs::SpecialChars]
            },
            r.wf(),
    {
        if len == 3 {
            Substitutions::none()
        } else {
            Substitutions::only_special_chars()
        }
    }
}

/// A step or group of steps named in a `subs` attribute.
#[derive(Debug, Clone, Copy, PartialEq, Eq, Structural)]
pub enum StepOrGroup {
    /// `none`
    NoSteps,
    Normal,
    Verbatim,
    SpecialChars,
    Callouts,
    Quotes,
    Attributes,
    Replacements,
    Macros,
    PostReplacements,
}

pub open spec fn step_or_group_of(s: Seq<char>) -> Option<StepOrGroup> {
    if s == "none"@ {
        Some(StepOrGroup::NoSteps)
    } else if s == "normal"@ {
        Some(StepOrGroup::Normal)
    } else if s == "verbatim"@ {
        Some(StepOrGroup::Verbatim)
    } else if s == "specialchars"@ {
        Some(StepOrGroup::SpecialChars)
    } else if s == "callouts"@ {
        Some(StepOrGroup::Callouts)
    } else if s == "quotes"@ {
        Some(StepOrGroup::Quotes)
    } else if s == "attributes"@ {
        Some(StepOrGroup::Attributes)
    } else if s == "replacements"@ {
        Some(StepOrGroup::Replacements)
    } else if s == "macros"@ {
        Some(StepOrGroup::Macros)
    } else if s == "post_replacements"@ {
        Some(StepOrGroup::PostReplacements)
    } else {
        None
    }
}

impl StepOrGroup {
    /// The step or group a name denotes.
    pub fn from(s: &str) -> (r: Option<StepOrGroup>)
        ensures
            r == step_or_group_of(s@),
    {
        if crate::text::str_eq(s, "none") {
            Some(StepOrGroup::NoSteps)
        } else if crate::text::str_eq(s, "normal") {
            Some(StepOrGroup::Normal)
        } else if crate::text::str_eq(s, "verbatim") {
            Some(StepOrGroup::Verbatim)
        } else if crate::text::str_eq(s, "specialchars") {
            Some(StepOrGroup::SpecialChars)
        } else if crate::text::str_eq(s, "callouts") {
            Some(StepOrGroup::Callouts)
        } else if crate::text::str_eq(s, "quotes") {
            Some(StepOrGroup::Quotes)
        } else if crate::text::str_eq(s, "attributes") {
            Some(StepOrGroup::Attributes)
        } else if crate::text::str_eq(s, "replacements") {
            Some(StepOrGroup::Replacements)
        } else if crate::text::str_eq(s, "macros") {
            Some(StepOrGroup::Macros)
        } else if crate::text::str_eq(s, "post_replacements") {
            Some(StepOrGroup::PostReplacements)
        } else {
            None
        }
    }
}

/// How a `subs` entry changes the steps: `+name` appends, `name+`
/// prepends, `-name` removes, a bare name replaces them all.
#[derive(Debug, Clone, Copy, PartialEq, Eq, Structural)]
pub enum SubsStrategy {
    Replace,
    Append,
    Prepend,
    Remove,
}

pub open spec fn strategy_of(part: Seq<char>) -> (SubsStrategy, Seq<char>) {
    if part[0] == '+' {
        (SubsStrategy::Append, part.drop_first())
    } else if part.last() == '+' {
        (SubsStrategy::Prepend, part.drop_last())
    } else if part[0] == '-' {
        (SubsStrategy::Remove, part.drop_first())
    } else {
        (SubsStrategy::Replace, part)
    }
}

/// The single step a group stands for where one can be added or removed.
pub open spec fn single_step_of(g: StepOrGroup) -> Option<Subs> {
    match g {
        StepOrGroup::SpecialChars => Some(Subs::SpecialChars),
        StepOrGroup::Quotes => Some(Subs::InlineFormatting),
        StepOrGroup::Attributes => Some(Subs::AttrRefs),
        StepOrGroup::Macros => Some(Subs::Macros),
        StepOrGroup::PostReplacements => Some(Subs::PostReplacement),
        _ => None,
    }
}

/// The outcome of one `subs` entry.
pub enum MetaStep {
    /// Go on with these steps.
    Continue(Seq<Subs>),
    /// These steps are the result.
    Finish(Seq<Subs>),
    /// An entry that is not supported (the reader stops there).
    Unsupported,
}

/// One `subs` entry applied to `cur`. Entries under four bytes and unknown
/// names are ignored.
pub open spec fn meta_step(cur: Seq<Subs>, part: Seq<char>) -> MetaStep {
    if crate::line::byte_len(part) < 4 {
        MetaStep::Continue(cur)
    } else {
        let (strategy, name) = strategy_of(part);
        match step_or_group_of(name) {
            None => MetaStep::Continue(cur),
            Some(g) => match strategy {
                SubsStrategy::Replace => match g {
                    StepOrGroup::NoSteps => MetaStep::Finish(Seq::empty()),
                    StepOrGroup::Normal => MetaStep::Finish(normal_steps()),
                    _ => MetaStep::Unsupported,
                },
                _ => match single_step_of(g) {
                    Some(step) => MetaStep::Continue(
                        match strategy {
                            SubsStrategy::Append => inserted(cur, step),
                            SubsStrategy::Prepend => prepended(cur, step),
                            _ => removed(cur, step),
                        },
                    ),
                    None => MetaStep::Unsupported,
                },
            },
        }
    }
}

/// The entries applied in turn; `None` if an unsupported one is reached.
pub open spec fn meta_parts(cur: Seq<Subs>, parts: Seq<Seq<char>>) -> Option<Seq<Subs>>
    decreases parts.len(),
{
    if parts.len() == 0 {
        Some(cur)
    } else {
        match meta_step(cur, parts[0]) {
            MetaStep::Continue(next) => meta_parts(next, parts.drop_first()),
            MetaStep::Finish(r) => Some(r),
            MetaStep::Unsupported => None,
        }
    }
}

/// The steps a block has once its `subs` attribute (if any) customises the
/// `current` ones.
pub open spec fn from_meta_result(current: Seq<Subs>, subs_attr: Option<Seq<char>>) -> Option<Seq<Subs>> {
    match subs_attr {
        None => Some(current),
        Some(s) => meta_parts(current, crate::text::split_chars(s, ',', ',')),
    }
}

proof fn lemma_removed_contains(s: Seq<Subs>, step: Subs, x: Subs)
    requires
        removed(s, step).contains(x),
    ensures
        s.contains(x),
        x != step,
    decreases s.len(),
{
    if s.len() == 0 {
        assert(removed(s, step).len() == 0);
    } else {
        let r = removed(s.drop_last(), step);
        if r.contains(x) {
            lemma_removed_contains(s.drop_last(), step, x);
            let j = choose|j: int| 0 <= j < s.drop_last().len() && s.drop_last()[j] == x;
            assert(s[j] == x);
        } else {
            assert(s.last() != step);
            assert(x == s.last());
            assert(s[s.len() - 1] == x);
        }
    }
}

proof fn lemma_removed_no_duplicates(s: Seq<Subs>, step: Subs)
    requires
        s.no_duplicates(),
    ensures
        removed(s, step).no_duplicates(),
    decreases s.len(),
{
    if s.len() > 0 {
        lemma_removed_no_duplicates(s.drop_last(), step);
        let r = removed(s.drop_last(), step);
        if s.last() != step {
            assert forall|a: int, b: int| 0 <= a < b < r.push(s.last()).len() implies r.push(s.last())[a]
                != r.push(s.last())[b] by {
                if b == r.len() && r[a] == s.last() {
                    assert(r.contains(r[a]));
                    lemma_removed_contains(s.drop_last(), step, r[a]);
                    let j = choose|j: int| 0 <= j < s.drop_last().len() && s.drop_last()[j] == r[a];
                    assert(s[j] == s[s.len() - 1]);
                }
            }
        }
    }
}

/// The steps of a block once its `subs` attribute customises `current`:
/// a comma-separated list of entries, each a step or group name, alone
/// (replacing the steps) or with `+` before (append), `+` after (prepend)
/// or `-` before (remove).
pub fn from_meta(current: Substitutions, subs_attr: Option<&str>) -> (r: Substitutions)
    requires
        current.wf(),
        from_meta_result(current@, crate::includes::opt_view(subs_attr)) is Some,
    ensures
        Some(r@) == from_meta_result(current@, crate::includes::opt_view(subs_attr)),
        r.wf(),
{
    let subs = match subs_attr {
        Some(s) => s,
        None => return current,
    };
    let cs = crate::text::chars_of(subs);
    let parts = crate::text::split_bounds(cs.as_slice(), ',', ',');
    let ghost ps = crate::text::split_chars(cs@, ',', ',');
    let mut next = current;
    let mut p: usize = 0;
    assert(ps.skip(0) =~= ps);
    while p < parts.len()
        invariant
            0 <= p <= parts@.len(),
            parts@.len() == ps.len(),
            forall|q: int|
                0 <= q < parts@.len() ==> (#[trigger] parts@[q]).0 <= parts@[q].1 <= cs@.len()
                    && cs@.subrange(parts@[q].0 as int, parts@[q].1 as int) == ps[q],
            meta_parts(next@, ps.skip(p as int)) == from_meta_result(current@, crate::includes::opt_view(subs_attr)),
            from_meta_result(current@, crate::includes::opt_view(subs_attr)) is Some,
            next.wf(),
        decreases parts@.len() - p,
    {
        let (s0, e0) = parts[p];
        let part_string = crate::text::string_of(&cs.as_slice()[s0..e0]);
        let part = part_string.as_str();
        let ghost pv = ps[p as int];
        proof {
            assert(parts@[p as int].0 <= parts@[p as int].1 <= cs@.len());
            assert(ps.skip(p as int)[0] == pv);
            assert(ps.skip(p as int).drop_first() =~= ps.skip(p + 1));
            lemma_normal_wf();
        }
        assert(part@ == pv);
        let len = part.as_bytes().len();
        p = p + 1;
        if len < 4 {
            continue;
        }
        let pcs = crate::text::chars_of(part);
        let n = pcs.len();
        proof {
            if pv.len() == 0 {
                assert(pv =~= Seq::<char>::empty());
                assert(vstd::utf8::encode_utf8(Seq::<char>::empty()) =~= Seq::<u8>::empty());
            }
        }
        let (strategy, name) = if pcs[0] == '+' {
            (SubsStrategy::Append, &pcs.as_slice()[1..n])
        } else if pcs[n - 1] == '+' {
            (SubsStrategy::Prepend, &pcs.as_slice()[0..n - 1])
        } else if pcs[0] == '-' {
            (SubsStrategy::Remove, &pcs.as_slice()[1..n])
        } else {
            (SubsStrategy::Replace, pcs.as_slice())
        };
        assert(strategy_of(pv).0 == strategy);
        assert(name@ =~= strategy_of(pv).1);
        let name_string = crate::text::string_of(name);
        let group = match StepOrGroup::from(name_string.as_str()) {
            Some(g) => g,
            None => continue,
        };
        match strategy {
            SubsStrategy::Replace => match group {
                StepOrGroup::NoSteps => return Substitutions::none(),
                StepOrGroup::Normal => return Substitutions::normal(),
                _ => {
                    assert(false);
                    return next;
                },
            },
            _ => {
                let step = match group {
                    StepOrGroup::SpecialChars => Subs::SpecialChars,
                    StepOrGroup::Quotes => Subs::InlineFormatting,
                    StepOrGroup::Attributes => Subs::AttrRefs,
                    StepOrGroup::Macros => Subs::Macros,
                    StepOrGroup::PostReplacements => Subs::PostReplacement,
                    _ => {
                        assert(false);
                        return next;
                    },
                };
                match strategy {
                    SubsStrategy::Append => next.insert(step),
                    SubsStrategy::Prepend => next.prepend(step),
                    _ => {
                        proof {
                            lemma_removed_no_duplicates(next@, step);
                        }
                        next.remove(step)
                    },
                }
            },
        }
    }
    assert(ps.skip(p as int) =~= Seq::<Seq<char>>::empty());
    next
}

} // verus!
