//! Configuration of the external test tool: the simulation class to run and
//! the parameter schema (names with default values) that decides which
//! user-supplied parameters are forwarded to it.

use vstd::prelude::*;
use crate::text::str_eq;

verus! {

/// One recognized parameter of the external tool: its name and its default
/// value.
#[derive(Debug, Clone, PartialEq, Eq)]
pub struct Param {
    pub name: String,
    pub value: String,
}

#[verifier::ext_equal]
pub struct ParamV {
    pub name: Seq<char>,
    pub value: Seq<char>,
}

impl View for Param {
    type V = ParamV;

    open spec fn view(&self) -> ParamV {
        ParamV { name: self.name@, value: self.value@ }
    }
}

impl DeepView for Param {
    type V = ParamV;

    open spec fn deep_view(&self) -> ParamV {
        self.view()
    }
}

/// The external tool's declared schema: its simulation class and recognized
/// parameters.
#[derive(Debug, Clone, PartialEq, Eq)]
pub struct SimulationConfig {
    pub simulation_class: String,
    pub params: Vec<Param>,
}

#[verifier::ext_equal]
pub struct SimulationConfigV {
    pub simulation_class: Seq<char>,
    pub params: Seq<ParamV>,
}

impl View for SimulationConfig {
    type V = SimulationConfigV;

    open spec fn view(&self) -> SimulationConfigV {
        SimulationConfigV {
            simulation_class: self.simulation_class@,
            params: self.params.deep_view(),
        }
    }
}

impl Default for SimulationConfig {
    fn default() -> (r: Self)
        ensures
            r@.simulation_class == Seq::<char>::empty(),
            r@.params == Seq::<ParamV>::empty(),
    {
        let r = SimulationConfig { simulation_class: String::new(), params: Vec::new() };
        proof {
            assert(r@.params =~= Seq::<ParamV>::empty());
        }
        r
    }
}

/// The application's configuration.
#[derive(Debug, Clone, PartialEq, Eq)]
pub struct AppConfig {
    pub simulation: SimulationConfig,
}

#[verifier::ext_equal]
pub struct AppConfigV {
    pub simulation: SimulationConfigV,
}

impl View for AppConfig {
    type V = AppConfigV;

    open spec fn view(&self) -> AppConfigV {
        AppConfigV { simulation: self.simulation@ }
    }
}

impl Default for AppConfig {
    fn default() -> (r: Self)
        ensures
            r@.simulation.simulation_class == Seq::<char>::empty(),
            r@.simulation.params == Seq::<ParamV>::empty(),
    {
        AppConfig { simulation: SimulationConfig::default() }
    }
}

/// The value of the first schema parameter named `name`, scanning from
/// position `i`.
pub open spec fn find_param_from(ps: Seq<ParamV>, name: Seq<char>, i: int) -> Option<Seq<char>>
    decreases ps.len() - i,
{
    if i < 0 || i >= ps.len() {
        None
    } else if ps[i].name == name {
        Some(ps[i].value)
    } else {
        find_param_from(ps, name, i + 1)
    }
}

/// The value of the first schema parameter named `name`.
pub open spec fn find_param(ps: Seq<ParamV>, name: Seq<char>) -> Option<Seq<char>> {
    find_param_from(ps, name, 0)
}

/// A parameter list that really is a mapping: no name appears twice.
pub open spec fn params_wf(ps: Seq<ParamV>) -> bool {
    forall|i: int, j: int|
        0 <= i < j < ps.len() ==> (#[trigger] ps[i]).name != (#[trigger] ps[j]).name
}

/// The index of the first parameter named `name`, scanning from `i`.
pub open spec fn find_param_idx_from(ps: Seq<ParamV>, name: Seq<char>, i: int) -> Option<int>
    decreases ps.len() - i,
{
    if i < 0 || i >= ps.len() {
        None
    } else if ps[i].name == name {
        Some(i)
    } else {
        find_param_idx_from(ps, name, i + 1)
    }
}

proof fn lemma_find_param_idx(ps: Seq<ParamV>, name: Seq<char>, i: int)
    requires
        0 <= i,
    ensures
        match find_param_idx_from(ps, name, i) {
            Some(k) => i <= k < ps.len() && ps[k].name == name,
            None => forall|k: int| i <= k < ps.len() ==> (#[trigger] ps[k]).name != name,
        },
    decreases ps.len() - i,
{
    if i < ps.len() && !(ps[i].name == name) {
        lemma_find_param_idx(ps, name, i + 1);
    }
}

/// The mapping a parameter list denotes, built by inserting the pairs in
/// order: a name's first occurrence keeps its position, and a repeated name
/// replaces the value, as inserting into a map does.
pub open spec fn spec_normalize(ps: Seq<ParamV>) -> Seq<ParamV>
    decreases ps.len(),
{
    if ps.len() == 0 {
        Seq::empty()
    } else {
        let rest = spec_normalize(ps.drop_last());
        match find_param_idx_from(rest, ps.last().name, 0) {
            None => rest.push(ps.last()),
            Some(k) => rest.update(k, ParamV { name: rest[k].name, value: ps.last().value }),
        }
    }
}

/// Normalization yields a mapping: the result never repeats a name.
pub proof fn lemma_normalize_wf(ps: Seq<ParamV>)
    ensures
        params_wf(spec_normalize(ps)),
    decreases ps.len(),
{
    if ps.len() > 0 {
        lemma_normalize_wf(ps.drop_last());
        let rest = spec_normalize(ps.drop_last());
        lemma_find_param_idx(rest, ps.last().name, 0);
        match find_param_idx_from(rest, ps.last().name, 0) {
            None => {
                assert forall|i: int, j: int|
                    0 <= i < j < rest.push(ps.last()).len() implies (#[trigger] rest.push(
                    ps.last(),
                )[i]).name != (#[trigger] rest.push(ps.last())[j]).name by {
                    if j < rest.len() {
                        assert(rest[i].name != rest[j].name);
                    } else {
                        assert(rest[i].name != ps.last().name);
                    }
                }
            },
            Some(k) => {
                let upd = rest.update(k, ParamV { name: rest[k].name, value: ps.last().value });
                assert forall|i: int, j: int|
                    0 <= i < j < upd.len() implies (#[trigger] upd[i]).name != (
                #[trigger] upd[j]).name by {
                    assert(upd[i].name == rest[i].name);
                    assert(upd[j].name == rest[j].name);
                    assert(rest[i].name != rest[j].name);
                }
            },
        }
    }
}

/// On a list that already is a mapping, normalization changes nothing.
pub proof fn lemma_normalize_identity(ps: Seq<ParamV>)
    requires
        params_wf(ps),
    ensures
        spec_normalize(ps) == ps,
    decreases ps.len(),
{
    if ps.len() == 0 {
        assert(spec_normalize(ps) =~= ps);
    } else {
        assert(params_wf(ps.drop_last())) by {
            assert(forall|i: int|
                0 <= i < ps.drop_last().len() ==> (#[trigger] ps.drop_last()[i]) == ps[i]);
        }
        lemma_normalize_identity(ps.drop_last());
        let rest = spec_normalize(ps.drop_last());
        lemma_find_param_idx(rest, ps.last().name, 0);
        match find_param_idx_from(rest, ps.last().name, 0) {
            None => {
                assert(rest.push(ps.last()) =~= ps);
            },
            Some(k) => {
                assert(rest[k].name == ps[k].name);
                assert(ps[k].name != ps.last().name);
                assert(false);
            },
        }
    }
}

fn find_param_idx_exec(ps: &Vec<Param>, name: &str) -> (r: Option<usize>)
    ensures
        match r {
            Some(k) => find_param_idx_from(ps.deep_view(), name@, 0) == Some(k as int),
            None => find_param_idx_from(ps.deep_view(), name@, 0) is None,
        },
{
    let ghost pv = ps.deep_view();
    let n = ps.len();
    let mut i: usize = 0;
    while i < n
        invariant
            0 <= i <= n,
            n == ps.len(),
            pv == ps.deep_view(),
            find_param_idx_from(pv, name@, 0) == find_param_idx_from(pv, name@, i as int),
        decreases n - i,
    {
        proof {
            assert(pv[i as int] == ps@[i as int]@);
        }
        if str_eq(ps[i].name.as_str(), name) {
            return Some(i);
        }
        i += 1;
    }
    None
}

/// Collapses a parameter list into the mapping it denotes, matching
/// `spec_normalize`: one entry per name, first occurrence's position, last
/// occurrence's value.
pub fn normalize_params(ps: &Vec<Param>) -> (r: Vec<Param>)
    ensures
        r.deep_view() == spec_normalize(ps.deep_view()),
        params_wf(r.deep_view()),
{
    let ghost pv = ps.deep_view();
    let mut out: Vec<Param> = Vec::new();
    let n = ps.len();
    let mut i: usize = 0;
    proof {
        assert(out.deep_view() =~~= spec_normalize(pv.take(0)));
    }
    while i < n
        invariant
            0 <= i <= n,
            n == ps.len(),
            pv == ps.deep_view(),
            out.deep_view() == spec_normalize(pv.take(i as int)),
        decreases n - i,
    {
        proof {
            assert(pv[i as int] == ps@[i as int]@);
            assert(pv.take(i + 1).drop_last() =~= pv.take(i as int));
            assert(pv.take(i + 1).last() == pv[i as int]);
        }
        let name = ps[i].name.clone();
        let value = ps[i].value.clone();
        match find_param_idx_exec(&out, name.as_str()) {
            None => {
                let ghost prev = out.deep_view();
                out.push(Param { name, value });
                proof {
                    assert(out.deep_view() =~~= prev.push(pv[i as int]));
                    assert(out.deep_view() =~~= spec_normalize(pv.take(i + 1)));
                }
            },
            Some(k) => {
                let ghost prev = out.deep_view();
                proof {
                    lemma_find_param_idx(prev, pv[i as int].name, 0);
                }
                let mut entry = out.remove(k);
                entry.value = value;
                out.insert(k, entry);
                proof {
                    assert(out.deep_view() =~~= prev.update(
                        k as int,
                        ParamV { name: prev[k as int].name, value: pv[i as int].value },
                    ));
                    assert(out.deep_view() =~~= spec_normalize(pv.take(i + 1)));
                }
            },
        }
        i += 1;
    }
    proof {
        assert(pv.take(n as int) =~= pv);
        lemma_normalize_wf(pv);
    }
    out
}

/// The value of the first parameter named `name` in `ps`, if any.
pub fn lookup_param(ps: &Vec<Param>, name: &str) -> (r: Option<String>)
    ensures
        match r {
            Some(v) => find_param(ps.deep_view(), name@) == Some(v@),
            None => find_param(ps.deep_view(), name@) is None,
        },
{
    let ghost pv = ps.deep_view();
    let n = ps.len();
    let mut i: usize = 0;
    while i < n
        invariant
            0 <= i <= n,
            n == ps.len(),
            pv == ps.deep_view(),
            find_param(pv, name@) == find_param_from(pv, name@, i as int),
        decreases n - i,
    {
        proof {
            assert(pv[i as int] == ps@[i as int]@);
        }
        if str_eq(ps[i].name.as_str(), name) {
            return Some(ps[i].value.clone());
        }
        i += 1;
    }
    None
}

impl AppConfig {
    /// The default value of the schema parameter named `name`, if the schema
    /// declares one.
    pub fn get_param(&self, name: &str) -> (r: Option<String>)
        ensures
            match r {
                Some(v) => find_param(self@.simulation.params, name@) == Some(v@),
                None => find_param(self@.simulation.params, name@) is None,
            },
    {
        lookup_param(&self.simulation.params, name)
    }
}

} // verus!
