//! Build-parameter history and its reconciliation against a job's current
//! parameter schema: keep the historical values that still exist, pick up
//! newly declared parameters at their defaults, and repair choice values
//! that the schema no longer offers.

use vstd::prelude::*;

use crate::assoc::{amap, distinct_keys, lemma_amap_contains, lemma_amap_last, lemma_amap_push,
    lemma_amap_update};
use crate::params::{JenkinsJobParameter, JobParamView, ParamInfo, ParamType, schema_views};
use crate::text::{chars_eq, chars_of, contains_sub, has_sub};
use crate::urls::{simplify_url, simplify_url_spec};

verus! {

/// A parameter name/value map, kept as an ordered entry list with distinct
/// names. Its view is the map it denotes.
#[derive(Debug)]
pub struct ParamsMap {
    pub entries: Vec<(String, ParamInfo)>,
}

/// The value part of one parameter binding: the chosen text and its kind.
pub type ParamBinding = (Seq<char>, ParamType);

/// The spec-level entry list of a parameter entry vector.
pub open spec fn pm_seq(s: Seq<(String, ParamInfo)>) -> Seq<(Seq<char>, ParamBinding)> {
    Seq::new(s.len(), |i: int| (s[i].0@, (s[i].1.value@, s[i].1.ptype)))
}

impl ParamsMap {
    /// The entry list at the spec level.
    pub open spec fn entries_seq(&self) -> Seq<(Seq<char>, ParamBinding)> {
        pm_seq(self.entries@)
    }

    pub open spec fn wf(&self) -> bool {
        distinct_keys(self.entries_seq())
    }

    pub open spec fn view(&self) -> Map<Seq<char>, ParamBinding> {
        amap(self.entries_seq())
    }

    pub fn new() -> (r: ParamsMap)
        ensures
            r.wf(),
            r@ == Map::<Seq<char>, ParamBinding>::empty(),
            r.entries@.len() == 0,
    {
        let r = ParamsMap { entries: Vec::new() };
        proof {
            assert(r.entries_seq() =~= Seq::<(Seq<char>, ParamBinding)>::empty());
        }
        r
    }

    pub fn len(&self) -> (n: usize)
        ensures
            n == self.entries@.len(),
    {
        self.entries.len()
    }

    /// Bind `name` to a value and kind, replacing any existing binding.
    pub fn insert(&mut self, name: String, value: String, ptype: ParamType)
        requires
            old(self).wf(),
        ensures
            final(self).wf(),
            final(self)@ == old(self)@.insert(name@, (value@, ptype)),
    {
        let ghost old_es = self.entries_seq();
        let n = chars_of(name.as_str());
        let mut i: usize = 0;
        while i < self.entries.len()
            invariant
                i <= self.entries@.len(),
                n@ == name@,
                self.entries_seq() == old_es,
                old_es == old(self).entries_seq(),
                distinct_keys(old_es),
                forall|k: int| 0 <= k < i ==> (#[trigger] old_es[k]).0 != name@,
            decreases self.entries@.len() - i,
        {
            let ec = chars_of(self.entries[i].0.as_str());
            if chars_eq(&ec, &n) {
                self.entries.set(i, (name, ParamInfo { value, ptype }));
                proof {
                    assert(self.entries_seq() =~= old_es.update(
                        i as int,
                        (old_es[i as int].0, (self.entries@[i as int].1.value@, ptype)),
                    ));
                    lemma_amap_update(old_es, i as int, (self.entries@[i as int].1.value@, ptype));
                }
                return ;
            }
            i = i + 1;
        }
        proof {
            lemma_amap_push(old_es, (name@, (value@, ptype)));
        }
        self.entries.push((name, ParamInfo { value, ptype }));
        proof {
            assert(self.entries_seq() =~= old_es.push(
                (
                    self.entries@[self.entries@.len() - 1].0@,
                    (
                        self.entries@[self.entries@.len() - 1].1.value@,
                        self.entries@[self.entries@.len() - 1].1.ptype,
                    ),
                ),
            ));
            assert(distinct_keys(self.entries_seq()));
        }
    }

    /// The binding under `name`, if any.
    pub fn get(&self, name: &str) -> (r: Option<(String, ParamType)>)
        requires
            self.wf(),
        ensures
            r is Some <==> self@.contains_key(name@),
            r is Some ==> (r.unwrap().0@, r.unwrap().1) == self@[name@],
    {
        let n = chars_of(name);
        let ghost es = self.entries_seq();
        let mut i: usize = 0;
        while i < self.entries.len()
            invariant
                i <= self.entries@.len(),
                n@ == name@,
                es == self.entries_seq(),
                distinct_keys(es),
                forall|k: int| 0 <= k < i ==> (#[trigger] es[k]).0 != name@,
            decreases self.entries@.len() - i,
        {
            let ec = chars_of(self.entries[i].0.as_str());
            if chars_eq(&ec, &n) {
                proof {
                    lemma_amap_last(es, i as int);
                }
                return Some((self.entries[i].1.value.clone(), self.entries[i].1.ptype));
            }
            i = i + 1;
        }
        proof {
            lemma_amap_contains(es, name@);
        }
        None
    }

    /// Whether `name` is bound.
    pub fn contains_key(&self, name: &str) -> (r: bool)
        requires
            self.wf(),
        ensures
            r == self@.contains_key(name@),
    {
        match self.get(name) {
            Some(_) => true,
            None => false,
        }
    }
}

/// Whether the schema declares a parameter called `k`.
pub open spec fn schema_has_name(cur: Seq<JobParamView>, k: Seq<char>) -> bool {
    exists|i: int| 0 <= i < cur.len() && (#[trigger] cur[i]).name == k
}

/// Phase one of the merge: the historical entries whose names the schema
/// still declares, in order.
pub open spec fn retained_entries(
    h: Seq<(Seq<char>, ParamBinding)>,
    cur: Seq<JobParamView>,
) -> Seq<(Seq<char>, ParamBinding)>
    decreases h.len(),
{
    if h.len() == 0 {
        Seq::empty()
    } else {
        let rest = retained_entries(h.drop_first(), cur);
        if schema_has_name(cur, h[0].0) {
            seq![h[0]] + rest
        } else {
            rest
        }
    }
}

/// The parameter kind a schema entry contributes when its default is taken.
pub open spec fn declared_type(p: JobParamView) -> ParamType {
    match p.param_type {
        Some(t) => t,
        None => ParamType::String,
    }
}

/// Phase two of the merge: walk the schema and bind every still-unbound
/// parameter that declares a default to that default.
pub open spec fn add_defaults(
    m: Map<Seq<char>, ParamBinding>,
    cur: Seq<JobParamView>,
) -> Map<Seq<char>, ParamBinding>
    decreases cur.len(),
{
    if cur.len() == 0 {
        m
    } else {
        let p = cur[0];
        let m1 = if !m.contains_key(p.name) && p.default_value is Some {
            m.insert(p.name, (p.default_value.unwrap(), declared_type(p)))
        } else {
            m
        };
        add_defaults(m1, cur.drop_first())
    }
}

/// The replacement for a choice value the schema no longer offers: the
/// declared default, else the first offered choice, else the empty text.
pub open spec fn choice_fallback(p: JobParamView) -> Seq<char> {
    if p.default_value is Some {
        p.default_value.unwrap()
    } else if p.choices.unwrap().len() > 0 {
        p.choices.unwrap()[0]
    } else {
        Seq::empty()
    }
}

/// Whether phase three rewrites the binding of `p.name` in `m`.
pub open spec fn choice_needs_fix(m: Map<Seq<char>, ParamBinding>, p: JobParamView) -> bool {
    &&& p.choices is Some
    &&& m.contains_key(p.name)
    &&& m[p.name].1 == ParamType::Choice
    &&& !p.choices.unwrap().contains(m[p.name].0)
}

/// Phase three of the merge: walk the schema and repair every choice
/// binding whose value the schema no longer offers.
pub open spec fn fix_choices(
    m: Map<Seq<char>, ParamBinding>,
    cur: Seq<JobParamView>,
) -> Map<Seq<char>, ParamBinding>
    decreases cur.len(),
{
    if cur.len() == 0 {
        m
    } else {
        let p = cur[0];
        let m1 = if choice_needs_fix(m, p) {
            m.insert(p.name, (choice_fallback(p), ParamType::Choice))
        } else {
            m
        };
        fix_choices(m1, cur.drop_first())
    }
}

/// The reconciled parameter map: historical values restricted to the
/// current schema, completed with declared defaults, with stale choice
/// values repaired.
pub open spec fn merged_params(
    h: Seq<(Seq<char>, ParamBinding)>,
    cur: Seq<JobParamView>,
) -> Map<Seq<char>, ParamBinding> {
    fix_choices(add_defaults(amap(retained_entries(h, cur)), cur), cur)
}

/// One remembered build: where it ran, what it was called, and with which
/// parameter values.
#[derive(Debug)]
pub struct HistoryEntry {
    pub job_url: String,
    pub name: String,
    pub display_name: Option<String>,
    pub params: Option<ParamsMap>,
    pub created_at: Option<i64>,
    pub completed_at: Option<i64>,
}

/// The historical entry list a merge starts from.
pub open spec fn history_params_seq(e: &HistoryEntry) -> Seq<(Seq<char>, ParamBinding)> {
    match e.params {
        None => Seq::empty(),
        Some(m) => m.entries_seq(),
    }
}

pub open spec fn history_params_wf(e: &HistoryEntry) -> bool {
    match e.params {
        None => true,
        Some(m) => m.wf(),
    }
}

/// Whether the schema declares a parameter with this name.
fn schema_contains(cur: &Vec<JenkinsJobParameter>, name: &Vec<char>) -> (r: bool)
    ensures
        r == schema_has_name(schema_views(cur@), name@),
{
    let mut i: usize = 0;
    while i < cur.len()
        invariant
            i <= cur@.len(),
            forall|j: int| 0 <= j < i ==> (#[trigger] schema_views(cur@)[j]).name != name@,
        decreases cur@.len() - i,
    {
        let nc = chars_of(cur[i].name.as_str());
        if chars_eq(&nc, name) {
            assert(schema_views(cur@)[i as int].name == name@);
            return true;
        }
        assert(schema_views(cur@)[i as int].name == cur@[i as int].name@);
        i = i + 1;
    }
    false
}

/// Whether a choice list offers this value.
fn choices_contain(choices: &Vec<String>, value: &str) -> (r: bool)
    ensures
        r == Seq::new(choices@.len(), |i: int| choices@[i]@).contains(value@),
{
    let ghost cs = Seq::new(choices@.len(), |i: int| choices@[i]@);
    let vv = chars_of(value);
    let mut i: usize = 0;
    while i < choices.len()
        invariant
            i <= choices@.len(),
            cs == Seq::new(choices@.len(), |j: int| choices@[j]@),
            vv@ == value@,
            forall|j: int| 0 <= j < i ==> cs[j] != value@,
        decreases choices@.len() - i,
    {
        let cc = chars_of(choices[i].as_str());
        if chars_eq(&cc, &vv) {
            assert(cs[i as int] == value@);
            return true;
        }
        i = i + 1;
    }
    proof {
        assert(forall|j: int| 0 <= j < cs.len() ==> cs[j] != value@);
    }
    false
}

/// The remembered builds, newest entries wherever the caller put them; the
/// caller loads and stores the list.
#[derive(Debug)]
pub struct History {
    pub entries: Vec<HistoryEntry>,
    pub version: Option<u32>,
}

impl History {
    /// An empty history.
    pub fn new() -> (h: History)
        ensures
            h.entries@.len() == 0,
            h.version == Some(1u32),
    {
        History { entries: Vec::new(), version: Some(1) }
    }

    /// Reconcile a remembered parameter set with the job's current schema:
    /// drop parameters the schema no longer declares, take declared defaults
    /// for parameters the history lacks, and replace choice values the
    /// schema no longer offers by the declared default or the first choice.
    pub fn merge_parameters(
        history_item: &HistoryEntry,
        current_parameters: &Vec<JenkinsJobParameter>,
    ) -> (r: ParamsMap)
        requires
            history_params_wf(history_item),
        ensures
            r.wf(),
            r@ == merged_params(
                history_params_seq(history_item),
                schema_views(current_parameters@),
            ),
    {
        let ghost cv = schema_views(current_parameters@);
        let ghost h_es = history_params_seq(history_item);
        let mut merged = ParamsMap::new();
        match &history_item.params {
            None => {
                proof {
                    assert(retained_entries(h_es, cv) == Seq::<(Seq<char>, ParamBinding)>::empty());
                    assert(amap(retained_entries(h_es, cv)) =~= merged@);
                }
            },
            Some(h) => {
                let mut i: usize = 0;
                proof {
                    assert(h_es.skip(0) =~= h_es);
                    assert(merged@.union_prefer_right(amap(retained_entries(h_es, cv)))
                        =~= amap(retained_entries(h_es, cv)));
                }
                while i < h.entries.len()
                    invariant
                        i <= h.entries@.len(),
                        h_es == h.entries_seq(),
                        cv == schema_views(current_parameters@),
                        merged.wf(),
                        amap(retained_entries(h_es, cv)) == merged@.union_prefer_right(
                            amap(retained_entries(h_es.skip(i as int), cv)),
                        ),
                    decreases h.entries@.len() - i,
                {
                    let ghost rem = h_es.skip(i as int);
                    let ghost cur_m = merged@;
                    proof {
                        assert(rem[0] == h_es[i as int]);
                        assert(rem.drop_first() =~= h_es.skip(i as int + 1));
                    }
                    let name_chars = chars_of(h.entries[i].0.as_str());
                    if schema_contains(current_parameters, &name_chars) {
                        merged.insert(
                            h.entries[i].0.clone(),
                            h.entries[i].1.value.clone(),
                            h.entries[i].1.ptype,
                        );
                        proof {
                            let p = rem[0];
                            let rest = amap(retained_entries(rem.drop_first(), cv));
                            assert(retained_entries(rem, cv) == seq![p] + retained_entries(
                                rem.drop_first(),
                                cv,
                            ));
                            assert((seq![p] + retained_entries(rem.drop_first(), cv)).drop_first()
                                =~= retained_entries(rem.drop_first(), cv));
                            assert(amap(retained_entries(rem, cv)) == if rest.contains_key(p.0) {
                                rest
                            } else {
                                rest.insert(p.0, p.1)
                            });
                            crate::assoc::lemma_amap_union_insert_step(cur_m, p.0, p.1, rest);
                        }
                    } else {
                        proof {
                            assert(retained_entries(rem, cv) == retained_entries(
                                rem.drop_first(),
                                cv,
                            ));
                        }
                    }
                    i = i + 1;
                }
                proof {
                    assert(h_es.skip(h_es.len() as int) =~= Seq::<
                        (Seq<char>, ParamBinding),
                    >::empty());
                    assert(amap(Seq::<(Seq<char>, ParamBinding)>::empty()) == Map::<
                        Seq<char>,
                        ParamBinding,
                    >::empty());
                    assert(merged@.union_prefer_right(Map::<Seq<char>, ParamBinding>::empty())
                        =~= merged@);
                }
            },
        }
        // Phase two: take declared defaults for parameters the history lacks.
        let ghost m1 = merged@;
        let mut i: usize = 0;
        proof {
            assert(cv.skip(0) =~= cv);
        }
        while i < current_parameters.len()
            invariant
                i <= current_parameters@.len(),
                cv == schema_views(current_parameters@),
                merged.wf(),
                add_defaults(merged@, cv.skip(i as int)) == add_defaults(m1, cv),
            decreases current_parameters@.len() - i,
        {
            proof {
                assert(cv.skip(i as int)[0] == cv[i as int]);
                assert(cv.skip(i as int).drop_first() =~= cv.skip(i as int + 1));
                assert(cv[i as int] == current_parameters@[i as int]@);
            }
            let already = merged.contains_key(current_parameters[i].name.as_str());
            if !already {
                match &current_parameters[i].default_value {
                    Some(d) => {
                        let t = match &current_parameters[i].param_type {
                            Some(t) => *t,
                            None => ParamType::String,
                        };
                        proof {
                            assert(t == declared_type(cv[i as int]));
                        }
                        merged.insert(current_parameters[i].name.clone(), d.clone(), t);
                    },
                    None => {},
                }
            }
            i = i + 1;
        }
        proof {
            assert(cv.skip(cv.len() as int) =~= Seq::<JobParamView>::empty());
        }
        // Phase three: repair choice values the schema no longer offers.
        let ghost m2 = merged@;
        let mut j: usize = 0;
        proof {
            assert(cv.skip(0) =~= cv);
        }
        while j < current_parameters.len()
            invariant
                j <= current_parameters@.len(),
                cv == schema_views(current_parameters@),
                merged.wf(),
                fix_choices(merged@, cv.skip(j as int)) == fix_choices(m2, cv),
            decreases current_parameters@.len() - j,
        {
            proof {
                assert(cv.skip(j as int)[0] == cv[j as int]);
                assert(cv.skip(j as int).drop_first() =~= cv.skip(j as int + 1));
                assert(cv[j as int] == current_parameters@[j as int]@);
            }
            match &current_parameters[j].choices {
                Some(cs) => {
                    match merged.get(current_parameters[j].name.as_str()) {
                        Some(binding) => {
                            let needs = binding.1 == ParamType::Choice && !choices_contain(
                                cs,
                                binding.0.as_str(),
                            );
                            if needs {
                                proof {
                                    assert(choice_needs_fix(merged@, cv[j as int]));
                                }
                                let fallback: String = match &current_parameters[j].default_value {
                                    Some(d) => d.clone(),
                                    None => {
                                        if cs.len() > 0 {
                                            cs[0].clone()
                                        } else {
                                            String::new()
                                        }
                                    },
                                };
                                proof {
                                    assert(fallback@ == choice_fallback(cv[j as int]));
                                }
                                merged.insert(
                                    current_parameters[j].name.clone(),
                                    fallback,
                                    ParamType::Choice,
                                );
                            } else {
                                proof {
                                    assert(!choice_needs_fix(merged@, cv[j as int]));
                                }
                            }
                        },
                        None => {
                            proof {
                                assert(!choice_needs_fix(merged@, cv[j as int]));
                            }
                        },
                    }
                },
                None => {
                    proof {
                        assert(!choice_needs_fix(merged@, cv[j as int]));
                    }
                },
            }
            j = j + 1;
        }
        proof {
            assert(cv.skip(cv.len() as int) =~= Seq::<JobParamView>::empty());
        }
        merged
    }
}

/// A retained entry list binds a name exactly when the history binds it and
/// the schema still declares it, and keeps the historical value.
proof fn lemma_retained_lookup(
    h: Seq<(Seq<char>, ParamBinding)>,
    cur: Seq<JobParamView>,
    k: Seq<char>,
)
    requires
        distinct_keys(h),
    ensures
        amap(retained_entries(h, cur)).contains_key(k) <==> (amap(h).contains_key(k)
            && schema_has_name(cur, k)),
        amap(retained_entries(h, cur)).contains_key(k) ==> amap(retained_entries(h, cur))[k]
            == amap(h)[k],
    decreases h.len(),
{
    if h.len() > 0 {
        let rest = h.drop_first();
        assert(forall|j: int| 0 <= j < rest.len() ==> #[trigger] rest[j] == h[j + 1]);
        assert(distinct_keys(rest));
        lemma_retained_lookup(rest, cur, k);
        lemma_amap_contains(rest, h[0].0);
        lemma_amap_contains(h, k);
        lemma_amap_contains(rest, k);
        if schema_has_name(cur, h[0].0) {
            let tail = retained_entries(rest, cur);
            assert(retained_entries(h, cur) == seq![h[0]] + tail);
            assert((seq![h[0]] + tail).drop_first() =~= tail);
            assert((seq![h[0]] + tail)[0] == h[0]);
            if h[0].0 == k {
                assert(!amap(rest).contains_key(k));
                assert(!amap(tail).contains_key(k));
                assert(amap(retained_entries(h, cur))[k] == h[0].1);
                lemma_amap_last(h, 0);
            } else {
                if amap(h).contains_key(k) {
                    let j = choose|j: int| 0 <= j < h.len() && (#[trigger] h[j]).0 == k;
                    assert(rest[j - 1].0 == k);
                    assert(amap(rest).contains_key(k));
                    if amap(rest).contains_key(k) && schema_has_name(cur, k) {
                        lemma_amap_value_eq(h, rest, k);
                    }
                }
            }
        } else {
            if amap(h).contains_key(k) && h[0].0 != k {
                let j = choose|j: int| 0 <= j < h.len() && (#[trigger] h[j]).0 == k;
                assert(rest[j - 1].0 == k);
            }
            if amap(rest).contains_key(k) {
                let j = choose|j: int| 0 <= j < rest.len() && (#[trigger] rest[j]).0 == k;
                assert(h[j + 1].0 == k);
            }
            if amap(h).contains_key(k) && schema_has_name(cur, k) {
                assert(h[0].0 != k);
                lemma_amap_value_eq(h, rest, k);
            }
        }
    }
}

/// With distinct keys, dropping the first entry leaves other lookups alone.
proof fn lemma_amap_value_eq(
    h: Seq<(Seq<char>, ParamBinding)>,
    rest: Seq<(Seq<char>, ParamBinding)>,
    k: Seq<char>,
)
    requires
        h.len() > 0,
        rest == h.drop_first(),
        h[0].0 != k,
        amap(rest).contains_key(k),
    ensures
        amap(h).contains_key(k),
        amap(h)[k] == amap(rest)[k],
{
    lemma_amap_contains(rest, h[0].0);
}

/// Taking defaults never disturbs an existing binding.
proof fn lemma_add_defaults_frame(
    m: Map<Seq<char>, ParamBinding>,
    cur: Seq<JobParamView>,
    k: Seq<char>,
)
    requires
        m.contains_key(k),
    ensures
        add_defaults(m, cur).contains_key(k),
        add_defaults(m, cur)[k] == m[k],
    decreases cur.len(),
{
    if cur.len() > 0 {
        let p = cur[0];
        let m1 = if !m.contains_key(p.name) && p.default_value is Some {
            m.insert(p.name, (p.default_value.unwrap(), declared_type(p)))
        } else {
            m
        };
        lemma_add_defaults_frame(m1, cur.drop_first(), k);
    }
}

/// Taking defaults binds nothing the schema does not declare.
proof fn lemma_add_defaults_absent(
    m: Map<Seq<char>, ParamBinding>,
    cur: Seq<JobParamView>,
    k: Seq<char>,
)
    requires
        !m.contains_key(k),
        !schema_has_name(cur, k),
    ensures
        !add_defaults(m, cur).contains_key(k),
    decreases cur.len(),
{
    if cur.len() > 0 {
        assert(cur[0].name != k);
        assert(forall|j: int|
            0 <= j < cur.drop_first().len() ==> #[trigger] cur.drop_first()[j] == cur[j + 1]);
        let p = cur[0];
        let m1 = if !m.contains_key(p.name) && p.default_value is Some {
            m.insert(p.name, (p.default_value.unwrap(), declared_type(p)))
        } else {
            m
        };
        lemma_add_defaults_absent(m1, cur.drop_first(), k);
    }
}

/// An unbound parameter the schema declares exactly once, with a default,
/// comes out of the default phase bound to that default.
proof fn lemma_add_defaults_new(m: Map<Seq<char>, ParamBinding>, cur: Seq<JobParamView>, i: int)
    requires
        0 <= i < cur.len(),
        !m.contains_key(cur[i].name),
        forall|j: int| 0 <= j < cur.len() && j != i ==> (#[trigger] cur[j]).name != cur[i].name,
        cur[i].default_value is Some,
    ensures
        add_defaults(m, cur).contains_key(cur[i].name),
        add_defaults(m, cur)[cur[i].name] == (cur[i].default_value.unwrap(), declared_type(cur[i])),
    decreases cur.len(),
{
    let k = cur[i].name;
    let rest = cur.drop_first();
    assert(forall|j: int| 0 <= j < rest.len() ==> #[trigger] rest[j] == cur[j + 1]);
    if i == 0 {
        let m1 = m.insert(k, (cur[0].default_value.unwrap(), declared_type(cur[0])));
        assert(!schema_has_name(rest, k));
        lemma_add_defaults_frame(m1, rest, k);
    } else {
        assert(cur[0].name != k);
        let p = cur[0];
        let m1 = if !m.contains_key(p.name) && p.default_value is Some {
            m.insert(p.name, (p.default_value.unwrap(), declared_type(p)))
        } else {
            m
        };
        assert(!m1.contains_key(k));
        assert(rest[i - 1] == cur[i]);
        lemma_add_defaults_new(m1, rest, i - 1);
    }
}

/// The choice-repair phase never adds or removes a binding.
proof fn lemma_fix_dom(m: Map<Seq<char>, ParamBinding>, cur: Seq<JobParamView>, k: Seq<char>)
    ensures
        fix_choices(m, cur).contains_key(k) == m.contains_key(k),
    decreases cur.len(),
{
    if cur.len() > 0 {
        let p = cur[0];
        let m1 = if choice_needs_fix(m, p) {
            m.insert(p.name, (choice_fallback(p), ParamType::Choice))
        } else {
            m
        };
        lemma_fix_dom(m1, cur.drop_first(), k);
    }
}

/// When the schema declares `cur[i].name` exactly once, the choice-repair
/// phase either rewrites that binding once, at `i`, or leaves it alone.
proof fn lemma_fix_unique(m: Map<Seq<char>, ParamBinding>, cur: Seq<JobParamView>, i: int)
    requires
        0 <= i < cur.len(),
        m.contains_key(cur[i].name),
        forall|j: int| 0 <= j < cur.len() && j != i ==> (#[trigger] cur[j]).name != cur[i].name,
    ensures
        fix_choices(m, cur).contains_key(cur[i].name),
        fix_choices(m, cur)[cur[i].name] == if choice_needs_fix(m, cur[i]) {
            (choice_fallback(cur[i]), ParamType::Choice)
        } else {
            m[cur[i].name]
        },
    decreases cur.len(),
{
    let k = cur[i].name;
    let rest = cur.drop_first();
    assert(forall|j: int| 0 <= j < rest.len() ==> #[trigger] rest[j] == cur[j + 1]);
    if i == 0 {
        let m1 = if choice_needs_fix(m, cur[0]) {
            m.insert(k, (choice_fallback(cur[0]), ParamType::Choice))
        } else {
            m
        };
        lemma_fix_no_name(m1, rest, k);
    } else {
        assert(cur[0].name != k);
        let p = cur[0];
        let m1 = if choice_needs_fix(m, p) {
            m.insert(p.name, (choice_fallback(p), ParamType::Choice))
        } else {
            m
        };
        assert(m1.contains_key(k) && m1[k] == m[k]);
        assert(rest[i - 1] == cur[i]);
        assert(choice_needs_fix(m1, cur[i]) == choice_needs_fix(m, cur[i]));
        lemma_fix_unique(m1, rest, i - 1);
    }
}

/// The choice-repair phase leaves alone every binding the schema slice does
/// not name.
proof fn lemma_fix_no_name(m: Map<Seq<char>, ParamBinding>, cur: Seq<JobParamView>, k: Seq<char>)
    requires
        !schema_has_name(cur, k),
    ensures
        fix_choices(m, cur).contains_key(k) == m.contains_key(k),
        m.contains_key(k) ==> fix_choices(m, cur)[k] == m[k],
    decreases cur.len(),
{
    if cur.len() > 0 {
        assert(cur[0].name != k);
        assert(forall|j: int|
            0 <= j < cur.drop_first().len() ==> #[trigger] cur.drop_first()[j] == cur[j + 1]);
        let p = cur[0];
        let m1 = if choice_needs_fix(m, p) {
            m.insert(p.name, (choice_fallback(p), ParamType::Choice))
        } else {
            m
        };
        lemma_fix_no_name(m1, cur.drop_first(), k);
    }
}

/// Law: a historical parameter the current schema no longer declares is
/// absent from the merged result.
pub proof fn lemma_merge_drops_removed(
    h: Seq<(Seq<char>, ParamBinding)>,
    cur: Seq<JobParamView>,
    k: Seq<char>,
)
    requires
        distinct_keys(h),
        !schema_has_name(cur, k),
    ensures
        !merged_params(h, cur).contains_key(k),
{
    lemma_retained_lookup(h, cur, k);
    lemma_add_defaults_absent(amap(retained_entries(h, cur)), cur, k);
    lemma_fix_dom(add_defaults(amap(retained_entries(h, cur)), cur), cur, k);
}

/// Law: a parameter the schema declares exactly once, with a default, that
/// the history does not bind, is bound to that default in the merged result.
pub proof fn lemma_merge_adds_new_default(
    h: Seq<(Seq<char>, ParamBinding)>,
    cur: Seq<JobParamView>,
    i: int,
)
    requires
        distinct_keys(h),
        0 <= i < cur.len(),
        !amap(h).contains_key(cur[i].name),
        forall|j: int| 0 <= j < cur.len() && j != i ==> (#[trigger] cur[j]).name != cur[i].name,
        cur[i].default_value is Some,
    ensures
        merged_params(h, cur).contains_key(cur[i].name),
        merged_params(h, cur)[cur[i].name].0 == cur[i].default_value.unwrap(),
{
    let k = cur[i].name;
    let d = cur[i].default_value.unwrap();
    lemma_retained_lookup(h, cur, k);
    let m0 = amap(retained_entries(h, cur));
    lemma_add_defaults_new(m0, cur, i);
    let m1 = add_defaults(m0, cur);
    lemma_fix_unique(m1, cur, i);
    if choice_needs_fix(m1, cur[i]) {
        assert(choice_fallback(cur[i]) == d);
    }
}

/// Errors the history store reports.
#[derive(Debug, PartialEq, Eq, Structural, Clone, Copy)]
pub enum HistoryError {
    EntryNotFound,
}

/// Two entries describe the same build when they agree on job URL and name.
pub open spec fn entry_matches_spec(a: &HistoryEntry, b: &HistoryEntry) -> bool {
    a.job_url@ == b.job_url@ && a.name@ == b.name@
}

/// The sort key of an entry: its creation time, zero when unknown.
pub open spec fn entry_key(e: &HistoryEntry) -> i64 {
    match e.created_at {
        Some(t) => t,
        None => 0,
    }
}

/// `a` is `b` with its completion time replaced.
pub open spec fn entry_with_completed(
    a: &HistoryEntry,
    b: &HistoryEntry,
    completed_at: Option<i64>,
) -> bool {
    &&& a.job_url@ == b.job_url@
    &&& a.name@ == b.name@
    &&& crate::params::opt_str_view(a.display_name) == crate::params::opt_str_view(b.display_name)
    &&& a.created_at == b.created_at
    &&& a.completed_at == completed_at
    &&& match (&a.params, &b.params) {
        (None, None) => true,
        (Some(x), Some(y)) => x.entries_seq() == y.entries_seq(),
        _ => false,
    }
}

/// Two entries carry the same data.
pub open spec fn entry_equiv(a: &HistoryEntry, b: &HistoryEntry) -> bool {
    &&& a.job_url@ == b.job_url@
    &&& a.name@ == b.name@
    &&& crate::params::opt_str_view(a.display_name) == crate::params::opt_str_view(b.display_name)
    &&& a.created_at == b.created_at
    &&& a.completed_at == b.completed_at
    &&& match (&a.params, &b.params) {
        (None, None) => true,
        (Some(x), Some(y)) => x.entries_seq() == y.entries_seq(),
        _ => false,
    }
}

/// Index of the first entry matching `info`, or the length if none matches.
pub open spec fn match_idx(entries: Seq<HistoryEntry>, url: Seq<char>, name: Seq<char>) -> int
    decreases entries.len(),
{
    if entries.len() == 0 {
        0
    } else if entries[0].job_url@ == url && entries[0].name@ == name {
        0
    } else {
        1 + match_idx(entries.drop_first(), url, name)
    }
}

pub proof fn lemma_match_idx(entries: Seq<HistoryEntry>, url: Seq<char>, name: Seq<char>)
    ensures
        0 <= match_idx(entries, url, name) <= entries.len(),
        match_idx(entries, url, name) < entries.len() ==> entries[match_idx(
            entries,
            url,
            name,
        )].job_url@ == url && entries[match_idx(entries, url, name)].name@ == name,
        forall|k: int|
            0 <= k < match_idx(entries, url, name) ==> !((#[trigger] entries[k]).job_url@ == url
                && entries[k].name@ == name),
    decreases entries.len(),
{
    if entries.len() > 0 && !(entries[0].job_url@ == url && entries[0].name@ == name) {
        lemma_match_idx(entries.drop_first(), url, name);
        assert forall|k: int|
            0 <= k < match_idx(entries, url, name) implies !((#[trigger] entries[k]).job_url@
            == url && entries[k].name@ == name) by {
            if k > 0 {
                assert(entries.drop_first()[k - 1] == entries[k]);
            }
        }
    }
}

proof fn lemma_match_idx_at(entries: Seq<HistoryEntry>, url: Seq<char>, name: Seq<char>, i: int)
    requires
        0 <= i <= entries.len(),
        forall|k: int|
            0 <= k < i ==> !((#[trigger] entries[k]).job_url@ == url && entries[k].name@ == name),
        i < entries.len() ==> entries[i].job_url@ == url && entries[i].name@ == name,
    ensures
        match_idx(entries, url, name) == i,
    decreases entries.len(),
{
    if entries.len() > 0 && !(entries[0].job_url@ == url && entries[0].name@ == name) {
        lemma_match_idx_at(entries.drop_first(), url, name, i - 1);
    }
}

/// A fresh copy of a parameter map.
fn clone_params(m: &ParamsMap) -> (r: ParamsMap)
    ensures
        r.entries_seq() == m.entries_seq(),
{
    let mut entries: Vec<(String, ParamInfo)> = Vec::new();
    let mut i: usize = 0;
    proof {
        assert(pm_seq(entries@) =~= pm_seq(m.entries@).subrange(0, 0));
    }
    while i < m.entries.len()
        invariant
            i <= m.entries@.len(),
            pm_seq(entries@) == pm_seq(m.entries@).subrange(0, i as int),
        decreases m.entries@.len() - i,
    {
        let ghost e0 = entries@;
        let name = m.entries[i].0.clone();
        let value = m.entries[i].1.value.clone();
        let ptype = m.entries[i].1.ptype;
        proof {
            assert(name == m.entries@[i as int].0);
            assert(value == m.entries@[i as int].1.value);
            assert(ptype == m.entries@[i as int].1.ptype);
        }
        entries.push((name, ParamInfo { value, ptype }));
        proof {
            assert(e0.len() == pm_seq(e0).len());
            assert(e0.len() == i);
            assert(entries@.len() == e0.len() + 1);
            assert(forall|j: int| 0 <= j < e0.len() ==> entries@[j] == e0[j]);
            assert forall|j: int| 0 <= j < entries@.len() implies pm_seq(entries@)[j] == pm_seq(
                m.entries@,
            ).subrange(0, i as int + 1)[j] by {
                if j < i {
                    assert(entries@[j] == e0[j]);
                    assert(pm_seq(e0)[j] == pm_seq(m.entries@).subrange(0, i as int)[j]);
                } else {
                    assert(entries@[j].0 == m.entries@[i as int].0);
                    assert(entries@[j].1.value == m.entries@[i as int].1.value);
                    assert(entries@[j].1.ptype == m.entries@[i as int].1.ptype);
                }
            }
            assert(pm_seq(entries@) =~= pm_seq(m.entries@).subrange(0, i as int + 1));
        }
        i = i + 1;
    }
    proof {
        assert(pm_seq(m.entries@).subrange(0, pm_seq(m.entries@).len() as int) =~= pm_seq(
            m.entries@,
        ));
    }
    ParamsMap { entries }
}

/// A fresh copy of a history entry.
pub fn clone_entry(e: &HistoryEntry) -> (r: HistoryEntry)
    ensures
        entry_equiv(&r, e),
{
    HistoryEntry {
        job_url: e.job_url.clone(),
        name: e.name.clone(),
        display_name: match &e.display_name {
            None => None,
            Some(d) => Some(d.clone()),
        },
        params: match &e.params {
            None => None,
            Some(m) => Some(clone_params(m)),
        },
        created_at: e.created_at,
        completed_at: e.completed_at,
    }
}

impl History {
    /// Whether two entries describe the same build.
    pub fn matches_entry(entry: &HistoryEntry, info: &HistoryEntry) -> (r: bool)
        ensures
            r == entry_matches_spec(entry, info),
    {
        crate::text::str_eq(entry.job_url.as_str(), info.job_url.as_str())
            && crate::text::str_eq(entry.name.as_str(), info.name.as_str())
    }

    /// Record a build about to run: stamp the entry with the current time,
    /// then replace the first entry describing the same build, or append.
    pub fn upsert_history(&mut self, entry: &mut HistoryEntry)
        ensures
            final(entry).created_at is Some && final(entry).created_at.unwrap() >= 0,
            final(entry).job_url == old(entry).job_url,
            final(entry).name == old(entry).name,
            final(entry).display_name == old(entry).display_name,
            final(entry).completed_at == old(entry).completed_at,
            final(self).version == old(self).version,
            ({
                let i = match_idx(old(self).entries@, old(entry).job_url@, old(entry).name@);
                if i < old(self).entries@.len() {
                    &&& final(self).entries@.len() == old(self).entries@.len()
                    &&& entry_equiv(&final(self).entries@[i], final(entry))
                    &&& forall|k: int|
                        0 <= k < old(self).entries@.len() && k != i ==> final(self).entries@[k]
                            == old(self).entries@[k]
                } else {
                    &&& final(self).entries@.len() == old(self).entries@.len() + 1
                    &&& entry_equiv(&final(self).entries@[i], final(entry))
                    &&& forall|k: int|
                        0 <= k < old(self).entries@.len() ==> final(self).entries@[k] == old(self).entries@[k]
                }
            }),
    {
        entry.created_at = Some(crate::clock::current_timestamp());
        let ghost url = entry.job_url@;
        let ghost name = entry.name@;
        let ghost es = self.entries@;
        let mut i: usize = 0;
        while i < self.entries.len()
            invariant
                i <= self.entries@.len(),
                es == self.entries@,
                es == old(self).entries@,
                self.version == old(self).version,
                url == entry.job_url@,
                name == entry.name@,
                entry.job_url == old(entry).job_url,
                entry.name == old(entry).name,
                entry.display_name == old(entry).display_name,
                entry.completed_at == old(entry).completed_at,
                entry.created_at is Some && entry.created_at.unwrap() >= 0,
                forall|k: int|
                    0 <= k < i ==> !((#[trigger] es[k]).job_url@ == url && es[k].name@ == name),
            decreases self.entries@.len() - i,
        {
            if Self::matches_entry(&self.entries[i], entry) {
                proof {
                    lemma_match_idx_at(es, url, name, i as int);
                }
                let copy = clone_entry(entry);
                self.entries.set(i, copy);
                return ;
            }
            i = i + 1;
        }
        proof {
            lemma_match_idx_at(es, url, name, es.len() as int);
        }
        let copy = clone_entry(entry);
        self.entries.push(copy);
    }

    /// The remembered build matching `info` under the given service address.
    pub fn get_history(&self, info: &HistoryEntry, base_url: &str) -> (r: Option<HistoryEntry>)
        ensures
            r is Some ==> exists|i: int|
                0 <= i < self.entries@.len() && entry_equiv(&r.unwrap(), &(#[trigger] self
                    .entries@[i])) && has_sub(
                    self.entries@[i].job_url@,
                    simplify_url_spec(base_url@),
                ) && entry_matches_spec(&self.entries@[i], info),
            r is None ==> forall|i: int|
                0 <= i < self.entries@.len() ==> !(has_sub(
                    (#[trigger] self.entries@[i]).job_url@,
                    simplify_url_spec(base_url@),
                ) && entry_matches_spec(&self.entries@[i], info)),
    {
        let core = simplify_url(base_url);
        let core_chars = chars_of(core.as_str());
        let mut i: usize = 0;
        while i < self.entries.len()
            invariant
                i <= self.entries@.len(),
                core_chars@ == simplify_url_spec(base_url@),
                forall|k: int|
                    0 <= k < i ==> !(has_sub(
                        (#[trigger] self.entries@[k]).job_url@,
                        simplify_url_spec(base_url@),
                    ) && entry_matches_spec(&self.entries@[k], info)),
            decreases self.entries@.len() - i,
        {
            let url_chars = chars_of(self.entries[i].job_url.as_str());
            if contains_sub(&url_chars, &core_chars) && Self::matches_entry(&self.entries[i], info) {
                return Some(clone_entry(&self.entries[i]));
            }
            i = i + 1;
        }
        None
    }

    /// Mark the matching entry as completed at the given time.
    pub fn update_field(&mut self, info: &HistoryEntry, completed_at: Option<i64>) -> (r: Result<
        (),
        HistoryError,
    >)
        ensures
            ({
                let i = match_idx(old(self).entries@, info.job_url@, info.name@);
                if i < old(self).entries@.len() {
                    &&& r is Ok
                    &&& final(self).entries@.len() == old(self).entries@.len()
                    &&& final(self).entries@[i].completed_at == completed_at
                    &&& entry_with_completed(
                        &final(self).entries@[i],
                        &old(self).entries@[i],
                        completed_at,
                    )
                    &&& forall|k: int|
                        0 <= k < old(self).entries@.len() && k != i ==> final(self).entries@[k]
                            == old(self).entries@[k]
                } else {
                    &&& r == Result::<(), HistoryError>::Err(HistoryError::EntryNotFound)
                    &&& final(self).entries@ == old(self).entries@
                }
            }),
            final(self).version == old(self).version,
    {
        let ghost url = info.job_url@;
        let ghost name = info.name@;
        let ghost es = self.entries@;
        let mut i: usize = 0;
        while i < self.entries.len()
            invariant
                i <= self.entries@.len(),
                es == self.entries@,
                es == old(self).entries@,
                self.version == old(self).version,
                url == info.job_url@,
                name == info.name@,
                forall|k: int|
                    0 <= k < i ==> !((#[trigger] es[k]).job_url@ == url && es[k].name@ == name),
            decreases self.entries@.len() - i,
        {
            if Self::matches_entry(&self.entries[i], info) {
                proof {
                    lemma_match_idx_at(es, url, name, i as int);
                }
                let mut copy = clone_entry(&self.entries[i]);
                copy.completed_at = completed_at;
                self.entries.set(i, copy);
                return Ok(());
            }
            i = i + 1;
        }
        proof {
            lemma_match_idx_at(es, url, name, es.len() as int);
        }
        Err(HistoryError::EntryNotFound)
    }
}

/// Law: a historical choice value the schema no longer offers is replaced
/// by the declared default, or by the first offered choice when there is no
/// default.
pub proof fn lemma_merge_choice_fallback(
    h: Seq<(Seq<char>, ParamBinding)>,
    cur: Seq<JobParamView>,
    i: int,
)
    requires
        distinct_keys(h),
        0 <= i < cur.len(),
        amap(h).contains_key(cur[i].name),
        amap(h)[cur[i].name].1 == ParamType::Choice,
        cur[i].choices is Some,
        !cur[i].choices.unwrap().contains(amap(h)[cur[i].name].0),
        forall|j: int| 0 <= j < cur.len() && j != i ==> (#[trigger] cur[j]).name != cur[i].name,
    ensures
        merged_params(h, cur).contains_key(cur[i].name),
        merged_params(h, cur)[cur[i].name] == (choice_fallback(cur[i]), ParamType::Choice),
{
    let k = cur[i].name;
    lemma_retained_lookup(h, cur, k);
    assert(schema_has_name(cur, k));
    let m0 = amap(retained_entries(h, cur));
    assert(m0.contains_key(k) && m0[k] == amap(h)[k]);
    lemma_add_defaults_frame(m0, cur, k);
    let m1 = add_defaults(m0, cur);
    assert(m1[k] == amap(h)[k]);
    assert(choice_needs_fix(m1, cur[i]));
    lemma_fix_unique(m1, cur, i);
}

/// An entry belongs to the service at `core` when its job URL contains it.
pub open spec fn entry_at_service(e: &HistoryEntry, core: Seq<char>) -> bool {
    has_sub(e.job_url@, core)
}

/// The entries of `s` that belong to the service at `core`, in order.
pub open spec fn service_entries(s: Seq<HistoryEntry>, core: Seq<char>) -> Seq<HistoryEntry>
    decreases s.len(),
{
    if s.len() == 0 {
        Seq::empty()
    } else {
        let rest = service_entries(s.drop_first(), core);
        if entry_at_service(&s[0], core) {
            seq![s[0]] + rest
        } else {
            rest
        }
    }
}

/// A valid recency selection: `out` carries the data of the stored entries
/// at positions `picked`, which are distinct entries of this service, and
/// every stored service entry that was left out is no newer than the last
/// (oldest) returned one — together with the descending order this makes
/// the returned entries the newest matching ones.
pub open spec fn recent_selection(
    picked: Seq<int>,
    out: Seq<HistoryEntry>,
    entries: Seq<HistoryEntry>,
    core: Seq<char>,
) -> bool {
    &&& picked.len() == out.len()
    &&& forall|i: int| 0 <= i < picked.len() ==> 0 <= #[trigger] picked[i] < entries.len()
    &&& forall|i: int|
        0 <= i < picked.len() ==> entry_at_service(&entries[#[trigger] picked[i]], core)
    &&& forall|i: int|
        0 <= i < picked.len() ==> entry_equiv(&out[i], &entries[#[trigger] picked[i]])
    &&& forall|a: int, b: int| 0 <= a < b < picked.len() ==> picked[a] != picked[b]
    &&& (out.len() > 0 ==> forall|j: int|
        0 <= j < entries.len() && entry_at_service(&(#[trigger] entries[j]), core)
            && !picked.contains(j) ==> entry_key(&entries[j]) <= entry_key(&out[out.len() - 1]))
}

impl History {
    /// The most recent remembered builds under the given service address,
    /// newest first, at most `limit` of them: a recency selection from the
    /// stored entries — distinct service entries, sorted newest first, with
    /// nothing newer left out.
    pub fn get_recent_histories(&self, base_url: &str, limit: Option<usize>) -> (r: Vec<
        HistoryEntry,
    >)
        ensures
            ({
                let pool_len = service_entries(self.entries@, simplify_url_spec(base_url@)).len();
                let cap = match limit {
                    Some(l) => l as int,
                    None => pool_len as int,
                };
                r@.len() == (if cap < pool_len {
                    cap
                } else {
                    pool_len as int
                })
            }),
            forall|i: int, j: int|
                0 <= i < j < r@.len() ==> entry_key(&(#[trigger] r@[i])) >= entry_key(
                    &(#[trigger] r@[j]),
                ),
            exists|picked: Seq<int>|
                recent_selection(picked, r@, self.entries@, simplify_url_spec(base_url@)),
    {
        let ghost core_spec = simplify_url_spec(base_url@);
        let core = simplify_url(base_url);
        let core_chars = chars_of(core.as_str());
        let mut pool: Vec<HistoryEntry> = Vec::new();
        let ghost mut pool_idx: Seq<int> = Seq::empty();
        let mut i: usize = 0;
        proof {
            assert(self.entries@.skip(0) =~= self.entries@);
        }
        while i < self.entries.len()
            invariant
                i <= self.entries@.len(),
                core_chars@ == core_spec,
                core_spec == simplify_url_spec(base_url@),
                pool@.len() + service_entries(self.entries@.skip(i as int), core_spec).len()
                    == service_entries(self.entries@, core_spec).len(),
                pool_idx.len() == pool@.len(),
                forall|k: int| 0 <= k < pool_idx.len() ==> 0 <= #[trigger] pool_idx[k] < i,
                forall|k: int|
                    0 <= k < pool_idx.len() ==> entry_at_service(
                        &self.entries@[#[trigger] pool_idx[k]],
                        core_spec,
                    ),
                forall|k: int|
                    0 <= k < pool_idx.len() ==> entry_equiv(
                        &pool@[k],
                        &self.entries@[#[trigger] pool_idx[k]],
                    ),
                forall|a: int, b: int| 0 <= a < b < pool_idx.len() ==> pool_idx[a] < pool_idx[b],
                forall|j: int|
                    0 <= j < i && entry_at_service(&(#[trigger] self.entries@[j]), core_spec)
                        ==> pool_idx.contains(j),
            decreases self.entries@.len() - i,
        {
            let ghost p0 = pool@;
            proof {
                assert(self.entries@.skip(i as int)[0] == self.entries@[i as int]);
                assert(self.entries@.skip(i as int).drop_first() =~= self.entries@.skip(
                    i as int + 1,
                ));
            }
            let url_chars = chars_of(self.entries[i].job_url.as_str());
            if contains_sub(&url_chars, &core_chars) {
                let copy = clone_entry(&self.entries[i]);
                pool.push(copy);
                proof {
                    assert(service_entries(self.entries@.skip(i as int), core_spec) == seq![
                        self.entries@[i as int],
                    ] + service_entries(self.entries@.skip(i as int + 1), core_spec));
                    assert(entry_equiv(&pool@[p0.len() as int], &self.entries@[i as int]));
                    let ghost pi0 = pool_idx;
                    pool_idx = pool_idx.push(i as int);
                    assert(pool_idx[pool_idx.len() - 1] == i as int);
                    assert forall|j: int|
                        0 <= j < i + 1 && entry_at_service(
                            &(#[trigger] self.entries@[j]),
                            core_spec,
                        ) implies pool_idx.contains(j) by {
                        if j < i {
                            assert(pi0.contains(j));
                            let k = choose|k: int| 0 <= k < pi0.len() && pi0[k] == j;
                            assert(pool_idx[k] == j);
                        } else {
                            assert(pool_idx[pool_idx.len() - 1] == j);
                        }
                    }
                }
            } else {
                proof {
                    assert(service_entries(self.entries@.skip(i as int), core_spec)
                        == service_entries(self.entries@.skip(i as int + 1), core_spec));
                    assert(!entry_at_service(&self.entries@[i as int], core_spec));
                }
            }
            i = i + 1;
        }
        proof {
            assert(self.entries@.skip(self.entries@.len() as int) =~= Seq::<HistoryEntry>::empty());
        }
        let cap: usize = match limit {
            Some(l) => l,
            None => pool.len(),
        };
        let ghost pool_len = pool@.len();
        let mut out: Vec<HistoryEntry> = Vec::new();
        let ghost mut out_idx: Seq<int> = Seq::empty();
        while out.len() < cap && pool.len() > 0
            invariant
                out@.len() + pool@.len() == pool_len,
                cap as int <= pool_len ==> out@.len() <= cap,
                out_idx.len() == out@.len(),
                pool_idx.len() == pool@.len(),
                forall|k: int|
                    0 <= k < pool_idx.len() ==> 0 <= #[trigger] pool_idx[k]
                        < self.entries@.len(),
                forall|k: int|
                    0 <= k < out_idx.len() ==> 0 <= #[trigger] out_idx[k] < self.entries@.len(),
                forall|k: int|
                    0 <= k < pool_idx.len() ==> entry_at_service(
                        &self.entries@[#[trigger] pool_idx[k]],
                        core_spec,
                    ),
                forall|k: int|
                    0 <= k < out_idx.len() ==> entry_at_service(
                        &self.entries@[#[trigger] out_idx[k]],
                        core_spec,
                    ),
                forall|k: int|
                    0 <= k < pool_idx.len() ==> entry_equiv(
                        &pool@[k],
                        &self.entries@[#[trigger] pool_idx[k]],
                    ),
                forall|k: int|
                    0 <= k < out_idx.len() ==> entry_equiv(
                        &out@[k],
                        &self.entries@[#[trigger] out_idx[k]],
                    ),
                forall|a: int, b: int| 0 <= a < b < pool_idx.len() ==> pool_idx[a] != pool_idx[b],
                forall|a: int, b: int| 0 <= a < b < out_idx.len() ==> out_idx[a] != out_idx[b],
                forall|a: int, b: int|
                    0 <= a < out_idx.len() && 0 <= b < pool_idx.len() ==> out_idx[a]
                        != pool_idx[b],
                forall|j: int|
                    0 <= j < self.entries@.len() && entry_at_service(
                        &(#[trigger] self.entries@[j]),
                        core_spec,
                    ) ==> out_idx.contains(j) || pool_idx.contains(j),
                forall|a: int, b: int|
                    0 <= a < b < out@.len() ==> entry_key(&(#[trigger] out@[a])) >= entry_key(
                        &(#[trigger] out@[b]),
                    ),
                forall|a: int, b: int|
                    0 <= a < out@.len() && 0 <= b < pool@.len() ==> entry_key(&(#[trigger] out@[a]))
                        >= entry_key(&(#[trigger] pool@[b])),
            decreases pool@.len(),
        {
            // Select the newest remaining entry.
            let mut best: usize = 0;
            let mut j: usize = 1;
            while j < pool.len()
                invariant
                    best < j <= pool@.len(),
                    pool@.len() > 0,
                    forall|k: int|
                        0 <= k < j ==> entry_key(&pool@[best as int]) >= entry_key(
                            &(#[trigger] pool@[k]),
                        ),
                decreases pool@.len() - j,
            {
                let kb = match pool[best].created_at {
                    Some(t) => t,
                    None => 0,
                };
                let kj = match pool[j].created_at {
                    Some(t) => t,
                    None => 0,
                };
                if kj > kb {
                    best = j;
                }
                j = j + 1;
            }
            let ghost pool0 = pool@;
            let ghost out0 = out@;
            let ghost pidx0 = pool_idx;
            let ghost oidx0 = out_idx;
            let picked = pool.remove(best);
            out.push(picked);
            proof {
                out_idx = out_idx.push(pidx0[best as int]);
                pool_idx = pidx0.remove(best as int);
                assert(out@ =~= out0.push(pool0[best as int]));
                assert(forall|k: int|
                    0 <= k < pool@.len() ==> #[trigger] pool@[k] == (if k < best {
                        pool0[k]
                    } else {
                        pool0[k + 1]
                    }));
                assert(forall|k: int|
                    0 <= k < pool_idx.len() ==> #[trigger] pool_idx[k] == (if k < best {
                        pidx0[k]
                    } else {
                        pidx0[k + 1]
                    }));
                // The moved entry keeps its origin; everything else keeps its
                // position or shifts down by one.
                assert forall|j2: int|
                    0 <= j2 < self.entries@.len() && entry_at_service(
                        &(#[trigger] self.entries@[j2]),
                        core_spec,
                    ) implies out_idx.contains(j2) || pool_idx.contains(j2) by {
                    if oidx0.contains(j2) {
                        let k = choose|k: int| 0 <= k < oidx0.len() && oidx0[k] == j2;
                        assert(out_idx[k] == j2);
                    } else {
                        let k = choose|k: int| 0 <= k < pidx0.len() && pidx0[k] == j2;
                        if k == best {
                            assert(out_idx[out_idx.len() - 1] == j2);
                        } else if k < best {
                            assert(pool_idx[k] == j2);
                        } else {
                            assert(pool_idx[k - 1] == j2);
                        }
                    }
                }
            }
        }
        proof {
            if out@.len() > 0 {
                assert forall|j2: int|
                    0 <= j2 < self.entries@.len() && entry_at_service(
                        &(#[trigger] self.entries@[j2]),
                        core_spec,
                    ) && !out_idx.contains(j2) implies entry_key(&self.entries@[j2]) <= entry_key(
                    &out@[out@.len() - 1],
                ) by {
                    let k = choose|k: int| 0 <= k < pool_idx.len() && pool_idx[k] == j2;
                    assert(entry_equiv(&pool@[k], &self.entries@[j2]));
                    assert(entry_key(&out@[out@.len() - 1]) >= entry_key(&pool@[k]));
                }
            }
            assert(recent_selection(out_idx, out@, self.entries@, core_spec));
        }
        out
    }
}

/// Views of a list of names.
pub open spec fn names_seq(v: Seq<String>) -> Seq<Seq<char>> {
    Seq::new(v.len(), |i: int| v[i]@)
}

/// An entry survives the cleanup when it belongs to another service or its
/// job still exists upstream.
pub open spec fn keep_entry(e: &HistoryEntry, names: Seq<Seq<char>>, core: Seq<char>) -> bool {
    !entry_at_service(e, core) || names.contains(e.name@)
}

/// The entries that survive the cleanup, in order.
pub open spec fn kept_entries(
    s: Seq<HistoryEntry>,
    names: Seq<Seq<char>>,
    core: Seq<char>,
) -> Seq<HistoryEntry>
    decreases s.len(),
{
    if s.len() == 0 {
        Seq::empty()
    } else {
        let rest = kept_entries(s.drop_first(), names, core);
        if keep_entry(&s[0], names, core) {
            seq![s[0]] + rest
        } else {
            rest
        }
    }
}

/// The names of the entries the cleanup drops, in order.
pub open spec fn dropped_names(
    s: Seq<HistoryEntry>,
    names: Seq<Seq<char>>,
    core: Seq<char>,
) -> Seq<Seq<char>>
    decreases s.len(),
{
    if s.len() == 0 {
        Seq::empty()
    } else {
        let rest = dropped_names(s.drop_first(), names, core);
        if keep_entry(&s[0], names, core) {
            rest
        } else {
            seq![s[0].name@] + rest
        }
    }
}

/// Whether `name` stands in the list.
fn name_in_list(list: &Vec<String>, name: &str) -> (r: bool)
    ensures
        r == names_seq(list@).contains(name@),
{
    let mut i: usize = 0;
    while i < list.len()
        invariant
            i <= list@.len(),
            forall|j: int| 0 <= j < i ==> names_seq(list@)[j] != name@,
        decreases list@.len() - i,
    {
        if crate::text::str_eq(list[i].as_str(), name) {
            assert(names_seq(list@)[i as int] == name@);
            return true;
        }
        i = i + 1;
    }
    proof {
        assert(forall|j: int| 0 <= j < names_seq(list@).len() ==> names_seq(list@)[j] != name@);
    }
    false
}

impl History {
    /// Drop the entries of this service whose jobs no longer exist
    /// upstream; give back the dropped names in order.
    pub fn cleanup_obsolete_projects(&mut self, existing_projects: &Vec<String>, base_url: &str)
        -> (r: Vec<String>)
        ensures
            final(self).entries@ == kept_entries(
                old(self).entries@,
                names_seq(existing_projects@),
                simplify_url_spec(base_url@),
            ),
            names_seq(r@) == dropped_names(
                old(self).entries@,
                names_seq(existing_projects@),
                simplify_url_spec(base_url@),
            ),
            final(self).version == old(self).version,
    {
        let ghost core_spec = simplify_url_spec(base_url@);
        let ghost names = names_seq(existing_projects@);
        let ghost old_es = self.entries@;
        let core = simplify_url(base_url);
        let core_chars = chars_of(core.as_str());
        let mut removed: Vec<String> = Vec::new();
        let mut i: usize = 0;
        let ghost mut j: int = 0;
        proof {
            assert(old_es.skip(0) =~= old_es);
            assert(self.entries@.subrange(0, 0) =~= Seq::<HistoryEntry>::empty());
            assert(Seq::<HistoryEntry>::empty() + kept_entries(old_es, names, core_spec)
                =~= kept_entries(old_es, names, core_spec));
            assert(names_seq(removed@) =~= Seq::<Seq<char>>::empty());
            assert(Seq::<Seq<char>>::empty() + dropped_names(old_es, names, core_spec)
                =~= dropped_names(old_es, names, core_spec));
        }
        while i < self.entries.len()
            invariant
                0 <= j <= old_es.len(),
                i <= self.entries@.len(),
                i as int <= j,
                core_chars@ == core_spec,
                core_spec == simplify_url_spec(base_url@),
                names == names_seq(existing_projects@),
                old_es == old(self).entries@,
                self.version == old(self).version,
                self.entries@.skip(i as int) == old_es.skip(j),
                kept_entries(old_es, names, core_spec) == self.entries@.subrange(0, i as int)
                    + kept_entries(old_es.skip(j), names, core_spec),
                dropped_names(old_es, names, core_spec) == names_seq(removed@) + dropped_names(
                    old_es.skip(j),
                    names,
                    core_spec,
                ),
            decreases old_es.len() - j,
        {
            proof {
                assert(old_es.skip(j)[0] == self.entries@[i as int]);
                assert(old_es.skip(j).drop_first() =~= old_es.skip(j + 1));
            }
            let url_chars = chars_of(self.entries[i].job_url.as_str());
            let url_matches = contains_sub(&url_chars, &core_chars);
            let still_there = name_in_list(existing_projects, self.entries[i].name.as_str());
            let ghost es0 = self.entries@;
            let ghost r0 = removed@;
            if !url_matches || still_there {
                proof {
                    assert(keep_entry(&old_es.skip(j)[0], names, core_spec));
                    assert(kept_entries(old_es.skip(j), names, core_spec) == seq![
                        old_es.skip(j)[0],
                    ] + kept_entries(old_es.skip(j + 1), names, core_spec));
                    assert(es0.subrange(0, i as int + 1) =~= es0.subrange(0, i as int) + seq![
                        es0[i as int],
                    ]);
                    assert(es0.subrange(0, i as int) + (seq![es0[i as int]] + kept_entries(
                        old_es.skip(j + 1),
                        names,
                        core_spec,
                    )) =~= es0.subrange(0, i as int + 1) + kept_entries(
                        old_es.skip(j + 1),
                        names,
                        core_spec,
                    ));
                }
                i = i + 1;
            } else {
                let name = self.entries[i].name.clone();
                removed.push(name);
                self.entries.remove(i);
                proof {
                    assert(!keep_entry(&old_es.skip(j)[0], names, core_spec));
                    assert(names_seq(removed@) =~= names_seq(r0).push(old_es.skip(j)[0].name@));
                    assert(names_seq(r0).push(old_es.skip(j)[0].name@) + dropped_names(
                        old_es.skip(j + 1),
                        names,
                        core_spec,
                    ) =~= names_seq(r0) + (seq![old_es.skip(j)[0].name@] + dropped_names(
                        old_es.skip(j + 1),
                        names,
                        core_spec,
                    )));
                    assert(self.entries@.subrange(0, i as int) =~= es0.subrange(0, i as int));
                    assert(self.entries@.skip(i as int) =~= old_es.skip(j + 1));
                }
            }
            proof {
                j = j + 1;
            }
        }
        proof {
            assert(old_es.skip(j) =~= old_es.skip(old_es.len() as int));
            assert(old_es.skip(old_es.len() as int) =~= Seq::<HistoryEntry>::empty());
            assert(self.entries@.subrange(0, i as int) =~= self.entries@);
            assert(self.entries@ + Seq::<HistoryEntry>::empty() =~= self.entries@);
            assert(names_seq(removed@) + Seq::<Seq<char>>::empty() =~= names_seq(removed@));
        }
        removed
    }
}

/// What comparing a remembered parameter set against the current schema
/// found: parameters the schema added, parameters it dropped, and remembered
/// choice values it no longer offers.
pub struct ParamDiff {
    pub new_params: Vec<String>,
    pub missing_params: Vec<String>,
    pub invalid_choices: Vec<String>,
}

/// Schema parameters the history does not bind, in schema order.
pub open spec fn new_param_names(
    cv: Seq<JobParamView>,
    h: Map<Seq<char>, ParamBinding>,
) -> Seq<Seq<char>>
    decreases cv.len(),
{
    if cv.len() == 0 {
        Seq::empty()
    } else {
        let rest = new_param_names(cv.drop_first(), h);
        if !h.contains_key(cv[0].name) {
            seq![cv[0].name] + rest
        } else {
            rest
        }
    }
}

/// Remembered parameters the schema no longer declares, in history order.
pub open spec fn missing_param_names(
    h: Seq<(Seq<char>, ParamBinding)>,
    cv: Seq<JobParamView>,
) -> Seq<Seq<char>>
    decreases h.len(),
{
    if h.len() == 0 {
        Seq::empty()
    } else {
        let rest = missing_param_names(h.drop_first(), cv);
        if !schema_has_name(cv, h[0].0) {
            seq![h[0].0] + rest
        } else {
            rest
        }
    }
}

/// The choice list of the last schema entry named `k`, if any.
pub open spec fn cur_choices_of(cv: Seq<JobParamView>, k: Seq<char>) -> Option<
    Option<Seq<Seq<char>>>,
>
    decreases cv.len(),
{
    if cv.len() == 0 {
        None
    } else if cv.last().name == k {
        Some(cv.last().choices)
    } else {
        cur_choices_of(cv.drop_last(), k)
    }
}

proof fn lemma_cur_choices_at(cv: Seq<JobParamView>, k: Seq<char>, idx: int)
    requires
        0 <= idx < cv.len(),
        cv[idx].name == k,
        forall|j: int| idx < j < cv.len() ==> (#[trigger] cv[j]).name != k,
    ensures
        cur_choices_of(cv, k) == Some(cv[idx].choices),
    decreases cv.len(),
{
    if idx < cv.len() - 1 {
        assert(forall|j: int| 0 <= j < cv.drop_last().len() ==> #[trigger] cv.drop_last()[j] == cv[j]);
        lemma_cur_choices_at(cv.drop_last(), k, idx);
    }
}

proof fn lemma_cur_choices_none(cv: Seq<JobParamView>, k: Seq<char>)
    requires
        forall|j: int| 0 <= j < cv.len() ==> (#[trigger] cv[j]).name != k,
    ensures
        cur_choices_of(cv, k) is None,
    decreases cv.len(),
{
    if cv.len() > 0 {
        assert(forall|j: int| 0 <= j < cv.drop_last().len() ==> #[trigger] cv.drop_last()[j] == cv[j]);
        lemma_cur_choices_none(cv.drop_last(), k);
    }
}

/// A remembered binding counts as an invalid choice when it is choice-typed
/// and the schema's choice list for that name no longer offers its value.
pub open spec fn invalid_choice(
    binding: (Seq<char>, ParamBinding),
    cv: Seq<JobParamView>,
) -> bool {
    &&& binding.1.1 == ParamType::Choice
    &&& match cur_choices_of(cv, binding.0) {
        Some(Some(cs)) => !cs.contains(binding.1.0),
        _ => false,
    }
}

/// The names of remembered bindings whose choice value the schema no longer
/// offers, in history order.
pub open spec fn invalid_choice_names(
    h: Seq<(Seq<char>, ParamBinding)>,
    cv: Seq<JobParamView>,
) -> Seq<Seq<char>>
    decreases h.len(),
{
    if h.len() == 0 {
        Seq::empty()
    } else {
        let rest = invalid_choice_names(h.drop_first(), cv);
        if invalid_choice(h[0], cv) {
            seq![h[0].0] + rest
        } else {
            rest
        }
    }
}

/// The choice list of the last schema entry with this name, if any.
fn find_cur_choices(cur: &Vec<JenkinsJobParameter>, name: &str) -> (r: Option<Option<Vec<String>>>)
    ensures
        r is Some <==> cur_choices_of(schema_views(cur@), name@) is Some,
        r is Some ==> crate::params::opt_strs_view(r.unwrap()) == cur_choices_of(
            schema_views(cur@),
            name@,
        ).unwrap(),
{
    let ghost cv = schema_views(cur@);
    let mut found: Option<usize> = None;
    let mut i: usize = 0;
    while i < cur.len()
        invariant
            i <= cur@.len(),
            cv == schema_views(cur@),
            match found {
                None => forall|j: int| 0 <= j < i ==> (#[trigger] cv[j]).name != name@,
                Some(f) => f < i && cv[f as int].name == name@ && forall|j: int|
                    f < j < i ==> (#[trigger] cv[j]).name != name@,
            },
        decreases cur@.len() - i,
    {
        if crate::text::str_eq(cur[i].name.as_str(), name) {
            assert(cv[i as int].name == name@);
            found = Some(i);
        } else {
            assert(cv[i as int].name != name@);
        }
        i = i + 1;
    }
    match found {
        None => {
            proof {
                lemma_cur_choices_none(cv, name@);
            }
            None
        },
        Some(f) => {
            proof {
                lemma_cur_choices_at(cv, name@, f as int);
            }
            match &cur[f].choices {
                None => Some(None),
                Some(cs) => {
                    let mut copy: Vec<String> = Vec::new();
                    let mut k: usize = 0;
                    while k < cs.len()
                        invariant
                            k <= cs@.len(),
                            copy@.len() == k,
                            forall|a: int| 0 <= a < k ==> (#[trigger] copy@[a])@ == cs@[a]@,
                        decreases cs@.len() - k,
                    {
                        copy.push(cs[k].clone());
                        k = k + 1;
                    }
                    proof {
                        assert(crate::params::opt_strs_view(Some(copy)) =~~= crate::params::opt_strs_view(
                            Some(*cs),
                        ));
                    }
                    Some(Some(copy))
                },
            }
        },
    }
}

/// Compare a remembered parameter set against the current schema.
pub fn compute_param_diff(
    history_params: &ParamsMap,
    current_parameters: &Vec<JenkinsJobParameter>,
) -> (r: ParamDiff)
    requires
        history_params.wf(),
    ensures
        names_seq(r.new_params@) == new_param_names(
            schema_views(current_parameters@),
            history_params@,
        ),
        names_seq(r.missing_params@) == missing_param_names(
            history_params.entries_seq(),
            schema_views(current_parameters@),
        ),
        names_seq(r.invalid_choices@) == invalid_choice_names(
            history_params.entries_seq(),
            schema_views(current_parameters@),
        ),
{
    let ghost cv = schema_views(current_parameters@);
    let ghost hm = history_params@;
    let ghost hes = history_params.entries_seq();
    let mut new_params: Vec<String> = Vec::new();
    let mut i: usize = 0;
    proof {
        assert(cv.skip(0) =~= cv);
        assert(names_seq(new_params@) =~= Seq::<Seq<char>>::empty());
        assert(Seq::<Seq<char>>::empty() + new_param_names(cv, hm) =~= new_param_names(cv, hm));
    }
    while i < current_parameters.len()
        invariant
            i <= current_parameters@.len(),
            cv == schema_views(current_parameters@),
            hm == history_params@,
            history_params.wf(),
            new_param_names(cv, hm) == names_seq(new_params@) + new_param_names(
                cv.skip(i as int),
                hm,
            ),
        decreases current_parameters@.len() - i,
    {
        proof {
            assert(cv.skip(i as int)[0] == cv[i as int]);
            assert(cv.skip(i as int).drop_first() =~= cv.skip(i as int + 1));
        }
        let ghost n0 = names_seq(new_params@);
        if !history_params.contains_key(current_parameters[i].name.as_str()) {
            new_params.push(current_parameters[i].name.clone());
            proof {
                assert(names_seq(new_params@) =~= n0.push(cv[i as int].name));
                assert(n0.push(cv[i as int].name) + new_param_names(cv.skip(i as int + 1), hm)
                    =~= n0 + (seq![cv[i as int].name] + new_param_names(
                    cv.skip(i as int + 1),
                    hm,
                )));
            }
        }
        i = i + 1;
    }
    proof {
        assert(cv.skip(cv.len() as int) =~= Seq::<JobParamView>::empty());
        assert(names_seq(new_params@) + Seq::<Seq<char>>::empty() =~= names_seq(new_params@));
    }
    let mut missing_params: Vec<String> = Vec::new();
    let mut invalid_choices: Vec<String> = Vec::new();
    let mut j: usize = 0;
    proof {
        assert(hes.skip(0) =~= hes);
        assert(names_seq(missing_params@) =~= Seq::<Seq<char>>::empty());
        assert(Seq::<Seq<char>>::empty() + missing_param_names(hes, cv) =~= missing_param_names(
            hes,
            cv,
        ));
        assert(names_seq(invalid_choices@) =~= Seq::<Seq<char>>::empty());
        assert(Seq::<Seq<char>>::empty() + invalid_choice_names(hes, cv) =~= invalid_choice_names(
            hes,
            cv,
        ));
    }
    while j < history_params.entries.len()
        invariant
            j <= history_params.entries@.len(),
            cv == schema_views(current_parameters@),
            hes == history_params.entries_seq(),
            missing_param_names(hes, cv) == names_seq(missing_params@) + missing_param_names(
                hes.skip(j as int),
                cv,
            ),
            invalid_choice_names(hes, cv) == names_seq(invalid_choices@) + invalid_choice_names(
                hes.skip(j as int),
                cv,
            ),
        decreases history_params.entries@.len() - j,
    {
        proof {
            assert(hes.skip(j as int)[0] == hes[j as int]);
            assert(hes.skip(j as int).drop_first() =~= hes.skip(j as int + 1));
        }
        let ghost m0 = names_seq(missing_params@);
        let ghost v0 = names_seq(invalid_choices@);
        let name_chars = chars_of(history_params.entries[j].0.as_str());
        if !schema_contains(current_parameters, &name_chars) {
            missing_params.push(history_params.entries[j].0.clone());
            proof {
                assert(names_seq(missing_params@) =~= m0.push(hes[j as int].0));
                assert(m0.push(hes[j as int].0) + missing_param_names(hes.skip(j as int + 1), cv)
                    =~= m0 + (seq![hes[j as int].0] + missing_param_names(
                    hes.skip(j as int + 1),
                    cv,
                )));
            }
        }
        let mut bad = false;
        if history_params.entries[j].1.ptype == ParamType::Choice {
            match find_cur_choices(current_parameters, history_params.entries[j].0.as_str()) {
                Some(Some(cs)) => {
                    if !choices_contain(&cs, history_params.entries[j].1.value.as_str()) {
                        bad = true;
                    }
                },
                _ => {},
            }
        }
        proof {
            assert(bad == invalid_choice(hes[j as int], cv));
        }
        if bad {
            invalid_choices.push(history_params.entries[j].0.clone());
            proof {
                assert(names_seq(invalid_choices@) =~= v0.push(hes[j as int].0));
                assert(v0.push(hes[j as int].0) + invalid_choice_names(hes.skip(j as int + 1), cv)
                    =~= v0 + (seq![hes[j as int].0] + invalid_choice_names(
                    hes.skip(j as int + 1),
                    cv,
                )));
            }
        }
        j = j + 1;
    }
    proof {
        assert(hes.skip(hes.len() as int) =~= Seq::<(Seq<char>, ParamBinding)>::empty());
        assert(names_seq(missing_params@) + Seq::<Seq<char>>::empty() =~= names_seq(
            missing_params@,
        ));
        assert(names_seq(invalid_choices@) + Seq::<Seq<char>>::empty() =~= names_seq(
            invalid_choices@,
        ));
    }
    ParamDiff { new_params, missing_params, invalid_choices }
}

/// Whether the comparison found any mismatch.
pub fn diff_has_changes(d: &ParamDiff) -> (r: bool)
    ensures
        r == (d.new_params@.len() > 0 || d.missing_params@.len() > 0 || d.invalid_choices@.len()
            > 0),
{
    d.new_params.len() > 0 || d.missing_params.len() > 0 || d.invalid_choices.len() > 0
}

/// The answer the confirmation prompt offers by default: reuse the
/// remembered parameters only when nothing changed.
pub fn diff_default_answer(d: &ParamDiff) -> (r: bool)
    ensures
        r == !(d.new_params@.len() > 0 || d.missing_params@.len() > 0 || d.invalid_choices@.len()
            > 0),
{
    !diff_has_changes(d)
}

} // verus!
