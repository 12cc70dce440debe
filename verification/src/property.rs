//! Property metadata and derived-property computation.
//!
//! A property is identified by a caller-chosen key (a plain integer standing
//! for the property's type identity) and carries a name, a required flag and
//! a derived flag. A derived property is never stored: its value is computed
//! on demand from the current values of its declared dependencies by an
//! evaluator, a value of a type implementing [`Compute`] that the table is
//! constructed with.

use vstd::prelude::*;

use crate::bytes::{le_val, le_u128};

verus! {

/// The mathematical value of an optional serialized property value.
pub open spec fn obv(o: Option<Vec<u8>>) -> Option<Seq<u8>> {
    match o {
        Some(v) => Some(v@),
        None => None,
    }
}

/// The mathematical value of a row of optional serialized values.
pub open spec fn deps_view(s: Seq<Option<Vec<u8>>>) -> Seq<Option<Seq<u8>>> {
    Seq::new(s.len(), |i: int| obv(s[i]))
}

/// An evaluator for derived properties. `compute` receives the key of the
/// derived property and the current values of its declared dependencies, in
/// declared order, and returns the derived value, or `None` where it is
/// undefined. The result is a pure function of the arguments, pinned by
/// `compute_spec`.
pub trait Compute: Sized {
    /// What `compute` returns.
    spec fn compute_spec(&self, key: int, deps: Seq<Option<Seq<u8>>>) -> Option<Seq<u8>>;

    /// Computes the value of the derived property `key` from the values of
    /// its dependencies.
    fn compute(&self, key: usize, deps: &Vec<Option<Vec<u8>>>) -> (r: Option<Vec<u8>>)
        ensures
            obv(r) == self.compute_spec(key as int, deps_view(deps@)),
    ;
}

/// The trivial evaluator: no derived property has a value. For tables that
/// use only stored properties.
pub struct StoredOnly;

impl Compute for StoredOnly {
    open spec fn compute_spec(&self, key: int, deps: Seq<Option<Seq<u8>>>) -> Option<Seq<u8>> {
        None
    }

    fn compute(&self, key: usize, deps: &Vec<Option<Vec<u8>>>) -> (r: Option<Vec<u8>>) {
        None
    }
}

/// The first threshold registered for `key`, if any.
pub open spec fn threshold_for(rules: Seq<(usize, u128)>, key: int) -> Option<u128>
    decreases rules.len(),
{
    if rules.len() == 0 {
        None
    } else if rules[0].0 == key {
        Some(rules[0].1)
    } else {
        threshold_for(rules.subrange(1, rules.len() as int), key)
    }
}

/// What a threshold rule computes: one byte, 1 when the first dependency
/// value, read as a little-endian integer, reaches the threshold, else 0.
/// `None` when the key has no rule, the dependency has no value, or the
/// value is longer than 16 bytes.
pub open spec fn threshold_value(t: u128, dep: Option<Seq<u8>>) -> Option<Seq<u8>> {
    match dep {
        None => None,
        Some(b) => if b.len() > 16 {
            None
        } else if le_val(b) >= t {
            Some(seq![1u8])
        } else {
            Some(seq![0u8])
        },
    }
}

/// A ready-made evaluator for flag-valued derived properties of the form
/// "first dependency, read as a little-endian unsigned integer, is at least
/// the threshold". Each rule pairs a derived property key with its
/// threshold.
pub struct GeThreshold {
    pub rules: Vec<(usize, u128)>,
}

impl GeThreshold {
    /// An evaluator with no rules yet.
    pub fn new() -> (r: GeThreshold)
        ensures
            r.rules@ == Seq::<(usize, u128)>::empty(),
    {
        GeThreshold { rules: Vec::new() }
    }

    /// Adds the rule that derived property `key` is the flag "first
    /// dependency is at least `threshold`".
    pub fn rule(&mut self, key: usize, threshold: u128)
        ensures
            final(self).rules@ == old(self).rules@.push((key, threshold)),
    {
        self.rules.push((key, threshold));
    }
}

impl Compute for GeThreshold {
    open spec fn compute_spec(&self, key: int, deps: Seq<Option<Seq<u8>>>) -> Option<Seq<u8>> {
        match threshold_for(self.rules@, key) {
            None => None,
            Some(t) => if deps.len() == 0 {
                None
            } else {
                threshold_value(t, deps[0])
            },
        }
    }

    fn compute(&self, key: usize, deps: &Vec<Option<Vec<u8>>>) -> (r: Option<Vec<u8>>) {
        let n = self.rules.len();
        let mut i: usize = 0;
        let mut found: Option<u128> = None;
        proof {
            assert(self.rules@.subrange(0, n as int) =~= self.rules@);
        }
        while i < n && found.is_none()
            invariant
                n == self.rules@.len(),
                0 <= i <= n,
                match found {
                    Some(t) => threshold_for(self.rules@, key as int) == Some(t),
                    None => threshold_for(self.rules@, key as int) == threshold_for(
                        self.rules@.subrange(i as int, n as int),
                        key as int,
                    ),
                },
            decreases (if found is None { 1int } else { 0int }), n - i,
        {
            proof {
                let sub = self.rules@.subrange(i as int, n as int);
                assert(sub[0] == self.rules@[i as int]);
                assert(sub.subrange(1, sub.len() as int) =~= self.rules@.subrange(
                    i + 1,
                    n as int,
                ));
            }
            if self.rules[i].0 == key {
                found = Some(self.rules[i].1);
                proof {
                    let sub = self.rules@.subrange(i as int, n as int);
                    assert(threshold_for(sub, key as int) == Some(sub[0].1));
                }
            } else {
                i += 1;
            }
        }
        proof {
            if found is None {
                assert(i >= n);
                assert(self.rules@.subrange(n as int, n as int).len() == 0);
            }
        }
        let t = match found {
            None => {
                return None;
            },
            Some(t) => t,
        };
        if deps.len() == 0 {
            return None;
        }
        let dep = match &deps[0] {
            None => {
                proof {
                    assert(deps_view(deps@)[0] is None);
                }
                return None;
            },
            Some(b) => b,
        };
        proof {
            assert(deps_view(deps@)[0] == Some(dep@));
        }
        if dep.len() > 16 {
            return None;
        }
        let v = le_u128(dep);
        if v >= t {
            let mut out: Vec<u8> = Vec::new();
            out.push(1);
            proof {
                assert(out@ =~= seq![1u8]);
            }
            Some(out)
        } else {
            let mut out: Vec<u8> = Vec::new();
            out.push(0);
            proof {
                assert(out@ =~= seq![0u8]);
            }
            Some(out)
        }
    }
}

/// Basic metadata about a registered property: its name, its key (the
/// stand-in for the property's type identity), and whether it is required
/// or derived.
pub struct PropertyInfo {
    name: String,
    key: usize,
    required: bool,
    derived: bool,
}

impl PropertyInfo {
    /// The name of the property.
    pub closed spec fn spec_name(self) -> Seq<char> {
        self.name@
    }

    /// The key of the property.
    pub closed spec fn spec_key(self) -> int {
        self.key as int
    }

    /// Whether the property is required.
    pub closed spec fn spec_required(self) -> bool {
        self.required
    }

    /// Whether the property is derived.
    pub closed spec fn spec_derived(self) -> bool {
        self.derived
    }

    /// Metadata for a property.
    pub fn new(name: String, key: usize, required: bool, derived: bool) -> (r: PropertyInfo)
        ensures
            r.spec_name() == name@,
            r.spec_key() == key as int,
            r.spec_required() == required,
            r.spec_derived() == derived,
    {
        PropertyInfo { name, key, required, derived }
    }

    /// The name of the property.
    pub fn name(&self) -> (r: &str)
        ensures
            r@ == self.spec_name(),
    {
        self.name.as_str()
    }

    /// The key standing for the property's type identity.
    pub fn type_id(&self) -> (r: usize)
        ensures
            r as int == self.spec_key(),
    {
        self.key
    }

    /// Whether entities must be created with a value for this property.
    pub fn is_required(&self) -> (r: bool)
        ensures
            r == self.spec_required(),
    {
        self.required
    }

    /// Whether the property is computed rather than stored.
    pub fn is_derived(&self) -> (r: bool)
        ensures
            r == self.spec_derived(),
    {
        self.derived
    }
}

} // verus!
