//! Parameter guards: an integer or boolean parameter of the machine blocks
//! an edge while its value is outside what the edge asks for.
//!
//! The blocking is kept as a guard of the edge under a key that names the
//! kind of condition and the parameter. The guard is only touched when the
//! blocking actually changes.
use crate::edges::{edge_at, with_guards, EdgeTable, EdgeTableView};
use vstd::prelude::*;
use vstd::string::StringExecFns;

verus! {

/// An integer parameter.
#[derive(Clone, Copy, Debug, PartialEq, Eq, Structural)]
pub struct IntParam {
    value: i32,
}

impl Default for IntParam {
    fn default() -> (p: IntParam)
        ensures
            p.value_spec() == 0,
    {
        IntParam { value: 0 }
    }
}

impl IntParam {
    /// The value of the parameter.
    pub closed spec fn value_spec(&self) -> i32 {
        self.value
    }

    /// The value of the parameter.
    pub fn get(&self) -> (v: i32)
        ensures
            v == self.value_spec(),
    {
        self.value
    }

    /// Sets the value of the parameter.
    pub fn set(&mut self, value: i32)
        ensures
            final(self).value_spec() == value,
    {
        self.value = value;
    }
}

/// A boolean parameter.
#[derive(Clone, Copy, Debug, PartialEq, Eq, Structural)]
pub struct BoolParam {
    value: bool,
}

impl Default for BoolParam {
    fn default() -> (p: BoolParam)
        ensures
            !p.value_spec(),
    {
        BoolParam { value: false }
    }
}

impl BoolParam {
    /// The value of the parameter.
    pub closed spec fn value_spec(&self) -> bool {
        self.value
    }

    /// The value of the parameter.
    pub fn get(&self) -> (v: bool)
        ensures
            v == self.value_spec(),
    {
        self.value
    }

    /// Sets the value of the parameter.
    pub fn set(&mut self, value: bool)
        ensures
            final(self).value_spec() == value,
    {
        self.value = value;
    }
}

/// Tells how the value of an integer parameter is read from a source of
/// type `T`. The type that implements this names the parameter.
pub trait IntParamBinding<T> {
    /// The value that the source gives.
    spec fn extract_spec(source: &T) -> i32;

    /// Reads the value from the source.
    fn extract(source: &T) -> (v: i32)
        ensures
            v == Self::extract_spec(source),
    ;
}

/// Tells how the value of a boolean parameter is read from a source of
/// type `T`. The type that implements this names the parameter.
pub trait BoolParamBinding<T> {
    /// The value that the source gives.
    spec fn extract_spec(source: &T) -> bool;

    /// Reads the value from the source.
    fn extract(source: &T) -> (v: bool)
        ensures
            v == Self::extract_spec(source),
    ;
}

/// Copies the value that `source` gives into the integer parameter `P`.
pub fn sync_int_param<T, P: IntParamBinding<T>>(source: &T, param: &mut IntParam)
    ensures
        final(param).value_spec() == P::extract_spec(source),
{
    param.set(P::extract(source));
}

/// Copies the value that `source` gives into the boolean parameter `P`.
pub fn sync_bool_param<T, P: BoolParamBinding<T>>(source: &T, param: &mut BoolParam)
    ensures
        final(param).value_spec() == P::extract_spec(source),
{
    param.set(P::extract(source));
}

/// The condition that an integer parameter lies between `min` and `max`,
/// both included, give or take `hysteresis`.
#[derive(Clone, Copy, Debug, PartialEq, Eq, Structural)]
pub struct IntInRange {
    /// The smallest value that passes.
    pub min: i32,
    /// The largest value that passes.
    pub max: i32,
    /// The margin by which a value may miss the range and still pass.
    pub hysteresis: i32,
}

impl IntInRange {
    /// The condition with the given bounds and margin.
    pub fn new(min: i32, max: i32, hysteresis: i32) -> (r: IntInRange)
        ensures
            r == (IntInRange { min, max, hysteresis }),
    {
        IntInRange { min, max, hysteresis }
    }
}

/// The condition that a boolean parameter has the expected value.
#[derive(Clone, Copy, Debug, PartialEq, Eq, Structural)]
pub struct BoolEquals {
    /// The value that passes.
    pub expected: bool,
}

impl BoolEquals {
    /// The condition with the given expected value.
    pub fn new(expected: bool) -> (b: BoolEquals)
        ensures
            b.expected == expected,
    {
        BoolEquals { expected }
    }
}

/// The guard key of an integer range condition on the parameter `name`.
pub open spec fn int_key(name: Seq<char>) -> Seq<char> {
    "int-in-range::<"@ + name + ">"@
}

/// The guard key of a boolean condition on the parameter `name`.
pub open spec fn bool_key(name: Seq<char>) -> Seq<char> {
    "bool-equals::<"@ + name + ">"@
}

/// The guard key of an integer range condition on the parameter `name`.
pub fn guard_key_for_int(name: &str) -> (key: String)
    ensures
        key@ == int_key(name@),
{
    String::from_str("int-in-range::<").concat(name).concat(">")
}

/// The guard key of a boolean condition on the parameter `name`.
pub fn guard_key_for_bool(name: &str) -> (key: String)
    ensures
        key@ == bool_key(name@),
{
    String::from_str("bool-equals::<").concat(name).concat(">")
}

/// Whether the range condition blocks: the parameter is missing, or its
/// value lies outside the range widened by the margin.
pub open spec fn int_blocked(param: Option<IntParam>, range: IntInRange) -> bool {
    match param {
        Some(p) => !(p.value_spec() + range.hysteresis >= range.min && p.value_spec()
            - range.hysteresis <= range.max),
        None => true,
    }
}

/// Whether the boolean condition blocks: the parameter is missing or has
/// another value than expected.
pub open spec fn bool_blocked(param: Option<BoolParam>, eq: BoolEquals) -> bool {
    match param {
        Some(p) => p.value_spec() != eq.expected,
        None => true,
    }
}

/// The table after the guard `key` of edge `e` was made to say `blocked`.
pub open spec fn synced(t: EdgeTableView, e: usize, key: Seq<char>, blocked: bool) -> EdgeTableView {
    match edge_at(t, e) {
        Some(edge) => with_guards(
            t,
            e,
            if blocked {
                edge.guards.insert(key)
            } else {
                edge.guards.remove(key)
            },
        ),
        None => t,
    }
}

/// Whether making the guard `key` of edge `e` say `blocked` changes the
/// edge's guards.
pub open spec fn sync_changes(t: EdgeTableView, e: usize, key: Seq<char>, blocked: bool) -> bool {
    match edge_at(t, e) {
        Some(edge) => edge.guards.contains(key) != blocked,
        None => false,
    }
}

/// Makes the guard `key` of edge `e` say `blocked`. The guards are touched
/// only when this changes them; the result tells whether it did.
pub fn sync_guard(edges: &mut EdgeTable, e: usize, key: String, blocked: bool) -> (changed: bool)
    ensures
        final(edges)@ == synced(old(edges)@, e, key@, blocked),
        changed == sync_changes(old(edges)@, e, key@, blocked),
{
    let has = match edges.get(e) {
        Some(edge) => edge.guards.has_guard(key.as_str()),
        None => {
            return false;
        },
    };
    let ghost t = edges@;
    if blocked != has {
        if blocked {
            let _ = edges.add_guard(e, key);
        } else {
            let _ = edges.remove_guard(e, key);
        }
        true
    } else {
        proof {
            let gs = t.edges[e as int].guards;
            if blocked {
                assert(gs.insert(key@) =~= gs);
            } else {
                assert(gs.remove(key@) =~= gs);
            }
            assert(with_guards(t, e, gs).edges =~= t.edges);
        }
        false
    }
}

/// Brings the guard of edge `edge` for the range condition `range` on the
/// parameter called `name` in line with the parameter's value. Returns
/// whether the edge's guards changed.
pub fn apply_int_param_guards(
    edges: &mut EdgeTable,
    edge: usize,
    range: &IntInRange,
    param: Option<&IntParam>,
    name: &str,
) -> (changed: bool)
    ensures
        ({
            let p = match param {
                Some(x) => Some(*x),
                None => None,
            };
            &&& final(edges)@ == synced(old(edges)@, edge, int_key(name@), int_blocked(p, *range))
            &&& changed == sync_changes(old(edges)@, edge, int_key(name@), int_blocked(p, *range))
        }),
{
    let blocked = match param {
        Some(p) => {
            let v = p.get() as i64;
            let h = range.hysteresis as i64;
            !(v + h >= range.min as i64 && v - h <= range.max as i64)
        },
        None => true,
    };
    sync_guard(edges, edge, guard_key_for_int(name), blocked)
}

/// Brings the guard of edge `edge` for the condition `eq` on the parameter
/// called `name` in line with the parameter's value. Returns whether the
/// edge's guards changed.
pub fn apply_bool_param_guards(
    edges: &mut EdgeTable,
    edge: usize,
    eq: &BoolEquals,
    param: Option<&BoolParam>,
    name: &str,
) -> (changed: bool)
    ensures
        ({
            let p = match param {
                Some(x) => Some(*x),
                None => None,
            };
            &&& final(edges)@ == synced(old(edges)@, edge, bool_key(name@), bool_blocked(p, *eq))
            &&& changed == sync_changes(old(edges)@, edge, bool_key(name@), bool_blocked(p, *eq))
        }),
{
    let blocked = match param {
        Some(p) => p.get() != eq.expected,
        None => true,
    };
    sync_guard(edges, edge, guard_key_for_bool(name), blocked)
}

} // verus!
