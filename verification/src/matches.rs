//! The result of a successful parse, and the queries it answers.
use vstd::prelude::*;
use crate::names::{
    Name, Opt, OptV, Optval, OptvalV, find_opt, find_opt_spec, lemma_find_opt_bounds,
    name_from, opts_view,
};

verus! {

pub open spec fn strings_view(v: Seq<String>) -> Seq<Seq<char>> {
    v.map_values(|s: String| s@)
}

pub open spec fn optvals_view(v: Seq<Optval>) -> Seq<OptvalV> {
    v.map_values(|o: Optval| o@)
}

pub open spec fn vals_view(v: Seq<Vec<Optval>>) -> Seq<Seq<OptvalV>> {
    v.map_values(|w: Vec<Optval>| optvals_view(w@))
}

/// The arguments of the values that carry one, in order.
pub open spec fn arg_strings(v: Seq<OptvalV>) -> Seq<Seq<char>>
    decreases v.len(),
{
    if v.len() == 0 {
        Seq::empty()
    } else {
        let r = arg_strings(v.drop_last());
        match v.last() {
            OptvalV::Val(s) => r.push(s),
            OptvalV::Given => r,
        }
    }
}

/// Mathematical value of [`Matches`]: the options, the values of each, and the free words.
pub struct MatchesV {
    pub opts: Seq<OptV>,
    pub vals: Seq<Seq<OptvalV>>,
    pub free: Seq<Seq<char>>,
}

impl MatchesV {
    /// The option that the query `nm` selects.
    pub open spec fn lookup(self, nm: Seq<char>) -> Option<nat> {
        find_opt_spec(self.opts, name_from(nm))
    }

    pub open spec fn defined(self, nm: Seq<char>) -> bool {
        self.lookup(nm) is Some
    }

    /// The recorded occurrences of the option `nm` selects.
    pub open spec fn values(self, nm: Seq<char>) -> Seq<OptvalV> {
        self.vals[self.lookup(nm).unwrap() as int]
    }

    pub open spec fn present(self, nm: Seq<char>) -> bool {
        self.values(nm).len() > 0
    }

    pub open spec fn count(self, nm: Seq<char>) -> nat {
        self.values(nm).len()
    }

    /// The argument of the first occurrence, when it has one.
    pub open spec fn first_arg(self, nm: Seq<char>) -> Option<Seq<char>> {
        let v = self.values(nm);
        if v.len() > 0 && v[0] is Val {
            Some(v[0]->Val_0)
        } else {
            None
        }
    }

    /// Whether `nm` is defined and occurred; an undefined name counts as absent.
    pub open spec fn present_if_defined(self, nm: Seq<char>) -> bool {
        self.defined(nm) && self.present(nm)
    }

    /// The first argument among the names, in their order.
    pub open spec fn first_arg_of_any(self, names: Seq<Seq<char>>) -> Option<Seq<char>>
        decreases names.len(),
    {
        if names.len() == 0 {
            None
        } else {
            match self.first_arg(names[0]) {
                Some(s) => Some(s),
                None => self.first_arg_of_any(names.drop_first()),
            }
        }
    }

    /// Every name is defined up to the first that carries an argument.
    pub open spec fn defined_until_arg(self, names: Seq<Seq<char>>) -> bool
        decreases names.len(),
    {
        names.len() == 0 || (self.defined(names[0]) && (self.first_arg(names[0]) is Some
            || self.defined_until_arg(names.drop_first())))
    }
}

/// The result of checking command line arguments: the options matched, the values
/// of each, and the free arguments.
#[derive(Clone, Debug, PartialEq, Eq)]
pub struct Matches {
    /// Options that matched
    opts: Vec<Opt>,
    /// Values of the Options that matched
    vals: Vec<Vec<Optval>>,
    /// Free string fragments
    pub free: Vec<String>,
}

impl View for Matches {
    type V = MatchesV;

    closed spec fn view(&self) -> MatchesV {
        MatchesV {
            opts: opts_view(self.opts@),
            vals: vals_view(self.vals@),
            free: strings_view(self.free@),
        }
    }
}

fn copy_vals(v: &Vec<Optval>) -> (r: Vec<Optval>)
    ensures
        optvals_view(r@) == optvals_view(v@),
{
    let mut r: Vec<Optval> = Vec::new();
    let mut i: usize = 0;
    while i < v.len()
        invariant
            i <= v.len(),
            r.len() == i,
            forall|k: int| 0 <= k < i ==> r@[k]@ == v@[k]@,
        decreases v.len() - i,
    {
        r.push(v[i].copy());
        i = i + 1;
    }
    assert(optvals_view(r@) =~= optvals_view(v@));
    r
}

impl Matches {
    /// Builds the result of a parse from its parts.
    pub(crate) fn from_parts(opts: Vec<Opt>, vals: Vec<Vec<Optval>>, free: Vec<String>) -> (m:
        Matches)
        ensures
            m@ == (MatchesV {
                opts: opts_view(opts@),
                vals: vals_view(vals@),
                free: strings_view(free@),
            }),
    {
        Matches { opts, vals, free }
    }

    /// The free words of the command line, in order.
    pub fn free(&self) -> (r: &Vec<String>)
        ensures
            strings_view(r@) == self@.free,
    {
        &self.free
    }

    /// The options and their values line up.
    pub open spec fn wf(&self) -> bool {
        self@.vals.len() == self@.opts.len()
    }

    fn lookup(&self, nm: &str) -> (r: Option<usize>)
        requires
            self.wf(),
        ensures
            r is Some <==> self@.lookup(nm@) is Some,
            r matches Some(i) ==> self@.lookup(nm@) == Some(i as nat),
            r matches Some(i) ==> i < self@.vals.len() && i < self.vals@.len(),
    {
        proof {
            lemma_find_opt_bounds(self@.opts, name_from(nm@));
        }
        let name = Name::from_str(nm);
        find_opt(&self.opts, &name)
    }

    fn opt_vals(&self, nm: &str) -> (r: Vec<Optval>)
        requires
            self.wf(),
            self@.defined(nm@),
        ensures
            optvals_view(r@) == self@.values(nm@),
    {
        let id = self.lookup(nm).unwrap();
        assert(self@.vals[id as int] == optvals_view(self.vals@[id as int]@));
        copy_vals(&self.vals[id])
    }

    fn opt_val(&self, nm: &str) -> (r: Option<Optval>)
        requires
            self.wf(),
            self@.defined(nm@),
        ensures
            r matches Some(v) ==> self@.values(nm@).len() > 0 && v@ == self@.values(nm@)[0],
            r is None ==> self@.values(nm@).len() == 0,
    {
        let v = self.opt_vals(nm);
        if v.len() > 0 {
            assert(v@[0]@ == optvals_view(v@)[0]);
            Some(v[0].copy())
        } else {
            None
        }
    }

    /// Returns true if an option was defined
    pub fn opt_defined(&self, nm: &str) -> (r: bool)
        requires
            self.wf(),
        ensures
            r == self@.defined(nm@),
    {
        self.lookup(nm).is_some()
    }

    /// Returns true if an option was matched.
    pub fn opt_present(&self, nm: &str) -> (r: bool)
        requires
            self.wf(),
            self@.defined(nm@),
        ensures
            r == self@.present(nm@),
    {
        !self.opt_vals(nm).is_empty()
    }

    /// Returns the number of times an option was matched.
    pub fn opt_count(&self, nm: &str) -> (r: usize)
        requires
            self.wf(),
            self@.defined(nm@),
        ensures
            r == self@.count(nm@),
    {
        self.opt_vals(nm).len()
    }

    /// Returns true if any of several options were matched.
    pub fn opts_present(&self, names: &[String]) -> (r: bool)
        requires
            self.wf(),
        ensures
            r == exists|i: int|
                0 <= i < names@.len() && #[trigger] self@.present_if_defined(names@[i]@),
            r == exists|i: int|
                0 <= i < names@.len() && self@.defined(#[trigger] names@[i]@) && self@.count(
                    names@[i]@,
                ) > 0,
    {
        let mut i: usize = 0;
        while i < names.len()
            invariant
                self.wf(),
                i <= names@.len(),
                forall|k: int| 0 <= k < i ==> !#[trigger] self@.present_if_defined(names@[k]@),
                forall|k: int|
                    0 <= k < i ==> !(self@.defined(#[trigger] names@[k]@) && self@.count(
                        names@[k]@,
                    ) > 0),
            decreases names@.len() - i,
        {
            match self.lookup(names[i].as_str()) {
                Some(id) => {
                    assert(self@.vals[id as int] == optvals_view(self.vals@[id as int]@));
                    assert(self@.count(names@[i as int]@) == self.vals@[id as int]@.len());
                    if !self.vals[id].is_empty() {
                        assert(self@.present_if_defined(names@[i as int]@));
                        assert(self@.defined(names@[i as int]@) && self@.count(names@[i as int]@)
                            > 0);
                        return true;
                    }
                },
                None => {},
            }
            i = i + 1;
        }
        false
    }

    /// Returns the string argument supplied to one of several matching options or `None`.
    pub fn opts_str(&self, names: &[String]) -> (r: Option<String>)
        requires
            self.wf(),
            self@.defined_until_arg(strings_view(names@)),
        ensures
            r matches Some(s) ==> self@.first_arg_of_any(strings_view(names@)) == Some(s@),
            r is None ==> self@.first_arg_of_any(strings_view(names@)) is None,
            // the first name, in order, whose first occurrence carried an argument
            r matches Some(s) ==> exists|i: int|
                0 <= i < names@.len() && self@.first_arg(#[trigger] names@[i]@) == Some(s@)
                    && forall|j: int| 0 <= j < i ==> self@.first_arg(#[trigger] names@[j]@) is None,
            r is None ==> forall|i: int|
                0 <= i < names@.len() ==> self@.first_arg(#[trigger] names@[i]@) is None,
    {
        let ghost all = strings_view(names@);
        assert(all.skip(0) =~= all);
        let mut i: usize = 0;
        while i < names.len()
            invariant
                self.wf(),
                i <= names@.len(),
                all == strings_view(names@),
                self@.first_arg_of_any(all) == self@.first_arg_of_any(all.skip(i as int)),
                self@.defined_until_arg(all.skip(i as int)),
                forall|j: int| 0 <= j < i ==> self@.first_arg(#[trigger] names@[j]@) is None,
            decreases names@.len() - i,
        {
            let ghost rest = all.skip(i as int);
            assert(rest[0] == names@[i as int]@);
            assert(rest.drop_first() =~= all.skip(i + 1));
            match self.opt_str(names[i].as_str()) {
                Some(s) => {
                    assert(self@.first_arg(names@[i as int]@) == Some(s@));
                    return Some(s);
                },
                None => {},
            }
            i = i + 1;
        }
        None
    }

    /// Returns a vector of the arguments provided to all matches of the given
    /// option.
    ///
    /// Used when an option accepts multiple values.
    pub fn opt_strs(&self, nm: &str) -> (r: Vec<String>)
        requires
            self.wf(),
            self@.defined(nm@),
        ensures
            strings_view(r@) == arg_strings(self@.values(nm@)),
    {
        let v = self.opt_vals(nm);
        let ghost vv = optvals_view(v@);
        let mut r: Vec<String> = Vec::new();
        let mut i: usize = 0;
        while i < v.len()
            invariant
                i <= v.len(),
                vv == optvals_view(v@),
                strings_view(r@) == arg_strings(vv.take(i as int)),
            decreases v.len() - i,
        {
            assert(vv.take(i + 1).drop_last() =~= vv.take(i as int));
            assert(vv.take(i + 1).last() == v@[i as int]@);
            match &v[i] {
                Optval::Val(s) => {
                    r.push(s.clone());
                    assert(strings_view(r@) =~= arg_strings(vv.take(i as int)).push(s@));
                },
                Optval::Given => {},
            }
            i = i + 1;
        }
        assert(vv.take(v.len() as int) =~= vv);
        r
    }

    /// Returns the string argument supplied to a matching option or `None`.
    pub fn opt_str(&self, nm: &str) -> (r: Option<String>)
        requires
            self.wf(),
            self@.defined(nm@),
        ensures
            r matches Some(s) ==> self@.first_arg(nm@) == Some(s@),
            r is None ==> self@.first_arg(nm@) is None,
    {
        match self.opt_val(nm) {
            Some(Optval::Val(s)) => Some(s),
            _ => None,
        }
    }

    /// Returns the matching string, a default, or `None`.
    ///
    /// Returns `None` if the option was not present, `def` if the option was
    /// present but no argument was provided, and the argument if the option was
    /// present and an argument was provided.
    pub fn opt_default(&self, nm: &str, def: &str) -> (r: Option<String>)
        requires
            self.wf(),
            self@.defined(nm@),
        ensures
            !self@.present(nm@) ==> r is None,
            self@.present(nm@) ==> r is Some && r->0@ == (match self@.first_arg(nm@) {
                Some(s) => s,
                None => def@,
            }),
    {
        match self.opt_val(nm) {
            Some(Optval::Val(s)) => Some(s),
            Some(_) => Some(def.to_owned()),
            None => None,
        }
    }
}

} // verus!
