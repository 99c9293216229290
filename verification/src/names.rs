//! Option names, option descriptions, matched values, failures, and option lookup.
use vstd::prelude::*;
use vstd::string::*;
use crate::text::{byte_len, char_to_string, lemma_byte_len_one};

verus! {

/// Name of an option: `Long("help")` for `--help`, `Short('h')` for `-h`.
#[derive(Clone, Debug, PartialEq, Eq)]
pub enum Name {
    Long(String),
    Short(char),
}

/// Mathematical value of a [`Name`].
pub enum NameV {
    Long(Seq<char>),
    Short(char),
}

impl View for Name {
    type V = NameV;

    open spec fn view(&self) -> NameV {
        match self {
            Name::Long(s) => NameV::Long(s@),
            Name::Short(c) => NameV::Short(*c),
        }
    }
}

/// The name that a command-line word or a query string denotes: a string of exactly
/// one byte is a short name, anything else a long one.
pub open spec fn name_from(s: Seq<char>) -> NameV {
    if byte_len(s) == 1 {
        NameV::Short(s[0])
    } else {
        NameV::Long(s)
    }
}

/// The text of a name, as it appears in failure messages.
pub open spec fn name_text(n: NameV) -> Seq<char> {
    match n {
        NameV::Short(c) => seq![c],
        NameV::Long(s) => s,
    }
}

impl Name {
    /// The name denoted by `nm`.
    pub fn from_str(nm: &str) -> (r: Name)
        ensures
            r@ == name_from(nm@),
    {
        proof {
            lemma_byte_len_one(nm@);
        }
        let n = nm.unicode_len();
        if n == 1 {
            let c = nm.get_char(0);
            if (c as u32) <= 0x7F {
                return Name::Short(c);
            }
        }
        Name::Long(nm.to_owned())
    }

    /// The text of this name.
    pub fn to_string(&self) -> (r: String)
        ensures
            r@ == name_text(self@),
    {
        match self {
            Name::Short(c) => char_to_string(*c),
            Name::Long(s) => s.clone(),
        }
    }
}

/// Whether two names are the same.
pub fn name_eq(a: &Name, b: &Name) -> (r: bool)
    ensures
        r == (a@ == b@),
{
    match (a, b) {
        (Name::Long(x), Name::Long(y)) => *x == *y,
        (Name::Short(x), Name::Short(y)) => *x == *y,
        _ => false,
    }
}

/// Describes whether an option has an argument.
#[derive(Clone, Copy, Debug, PartialEq, Eq, Structural)]
pub enum HasArg {
    /// The option requires an argument.
    Yes,
    /// The option takes no argument.
    No,
    /// The option argument is optional.
    Maybe,
}

/// Describes how often an option may occur.
#[derive(Clone, Copy, Debug, PartialEq, Eq, Structural)]
pub enum Occur {
    /// The option occurs once.
    Req,
    /// The option occurs at most once.
    Optional,
    /// The option occurs zero or more times.
    Multi,
}

/// One occurrence of an option: with its argument, or given alone.
#[derive(Clone, Debug, PartialEq, Eq)]
pub enum Optval {
    Val(String),
    Given,
}

pub enum OptvalV {
    Val(Seq<char>),
    Given,
}

impl View for Optval {
    type V = OptvalV;

    open spec fn view(&self) -> OptvalV {
        match self {
            Optval::Val(s) => OptvalV::Val(s@),
            Optval::Given => OptvalV::Given,
        }
    }
}

impl Optval {
    /// A copy of this value.
    pub fn copy(&self) -> (r: Optval)
        ensures
            r@ == self@,
    {
        match self {
            Optval::Val(s) => Optval::Val(s.clone()),
            Optval::Given => Optval::Given,
        }
    }
}

/// A description of a possible option.
#[derive(Clone, Debug, PartialEq, Eq)]
pub struct Opt {
    /// Name of the option
    pub name: Name,
    /// Whether it has an argument
    pub hasarg: HasArg,
    /// How often it can occur
    pub occur: Occur,
    /// The other names under which it is found
    pub aliases: Vec<Name>,
}

/// Mathematical value of an [`Opt`].
pub struct OptV {
    pub name: NameV,
    pub hasarg: HasArg,
    pub occur: Occur,
    pub aliases: Seq<NameV>,
}

impl View for Opt {
    type V = OptV;

    open spec fn view(&self) -> OptV {
        OptV {
            name: self.name@,
            hasarg: self.hasarg,
            occur: self.occur,
            aliases: self.aliases@.map_values(|a: Name| a@),
        }
    }
}

pub open spec fn opts_view(opts: Seq<Opt>) -> Seq<OptV> {
    opts.map_values(|o: Opt| o@)
}

/// Index of the first option, at or after `from`, whose own name is `nm`.
pub open spec fn index_of_name(opts: Seq<OptV>, nm: NameV, from: nat) -> Option<nat>
    decreases opts.len() - from,
{
    if from >= opts.len() {
        None
    } else if opts[from as int].name == nm {
        Some(from)
    } else {
        index_of_name(opts, nm, from + 1)
    }
}

/// Looking among the aliases of the options at or after `from`: the first option
/// listing `nm` as an alias, resolved to the first option that bears its name.
pub open spec fn index_by_alias(opts: Seq<OptV>, nm: NameV, from: nat) -> Option<nat>
    decreases opts.len() - from,
{
    if from >= opts.len() {
        None
    } else if opts[from as int].aliases.contains(nm) {
        index_of_name(opts, opts[from as int].name, 0)
    } else {
        index_by_alias(opts, nm, from + 1)
    }
}

/// Which option `nm` selects: one of that name, else one that has it as an alias.
pub open spec fn find_opt_spec(opts: Seq<OptV>, nm: NameV) -> Option<nat> {
    match index_of_name(opts, nm, 0) {
        Some(i) => Some(i),
        None => index_by_alias(opts, nm, 0),
    }
}

pub proof fn lemma_index_of_name(opts: Seq<OptV>, nm: NameV, from: nat)
    ensures
        index_of_name(opts, nm, from) matches Some(i) ==> from <= i < opts.len()
            && opts[i as int].name == nm,
        index_of_name(opts, nm, from) is None ==> forall|j: int|
            from <= j < opts.len() ==> opts[j].name != nm,
        forall|j: int| from <= j < opts.len() && opts[j].name == nm ==> index_of_name(opts, nm, from) is Some,
    decreases opts.len() - from,
{
    if from < opts.len() && opts[from as int].name != nm {
        lemma_index_of_name(opts, nm, from + 1);
    }
}

pub proof fn lemma_index_by_alias(opts: Seq<OptV>, nm: NameV, from: nat)
    ensures
        index_by_alias(opts, nm, from) matches Some(i) ==> i < opts.len(),
    decreases opts.len() - from,
{
    if from < opts.len() {
        if opts[from as int].aliases.contains(nm) {
            lemma_index_of_name(opts, opts[from as int].name, 0);
        } else {
            lemma_index_by_alias(opts, nm, from + 1);
        }
    }
}

pub proof fn lemma_find_opt_bounds(opts: Seq<OptV>, nm: NameV)
    ensures
        find_opt_spec(opts, nm) matches Some(i) ==> i < opts.len(),
{
    lemma_index_of_name(opts, nm, 0);
    lemma_index_by_alias(opts, nm, 0);
}

fn position_of_name(opts: &Vec<Opt>, nm: &Name) -> (r: Option<usize>)
    ensures
        r is Some <==> index_of_name(opts_view(opts@), nm@, 0) is Some,
        r matches Some(i) ==> index_of_name(opts_view(opts@), nm@, 0) == Some(i as nat),
{
    let ghost ov = opts_view(opts@);
    let mut i: usize = 0;
    while i < opts.len()
        invariant
            i <= opts.len(),
            ov == opts_view(opts@),
            index_of_name(ov, nm@, 0) == index_of_name(ov, nm@, i as nat),
        decreases opts.len() - i,
    {
        if name_eq(&opts[i].name, nm) {
            return Some(i);
        }
        i = i + 1;
    }
    None
}

fn aliases_contain(aliases: &Vec<Name>, nm: &Name) -> (r: bool)
    ensures
        r == aliases@.map_values(|a: Name| a@).contains(nm@),
{
    let ghost names = aliases@.map_values(|a: Name| a@);
    let mut j: usize = 0;
    while j < aliases.len()
        invariant
            j <= aliases.len(),
            names == aliases@.map_values(|a: Name| a@),
            forall|k: int| 0 <= k < j ==> names[k] != nm@,
        decreases aliases.len() - j,
    {
        if name_eq(&aliases[j], nm) {
            assert(names[j as int] == nm@);
            return true;
        }
        j = j + 1;
    }
    false
}

/// Which option `nm` selects, if any.
pub fn find_opt(opts: &Vec<Opt>, nm: &Name) -> (r: Option<usize>)
    ensures
        r is Some <==> find_opt_spec(opts_view(opts@), nm@) is Some,
        r matches Some(i) ==> find_opt_spec(opts_view(opts@), nm@) == Some(i as nat),
        r matches Some(i) ==> i < opts.len(),
{
    let ghost ov = opts_view(opts@);
    proof {
        lemma_find_opt_bounds(ov, nm@);
    }
    let pos = position_of_name(opts, nm);
    if pos.is_some() {
        return pos;
    }
    let mut c: usize = 0;
    while c < opts.len()
        invariant
            c <= opts.len(),
            ov == opts_view(opts@),
            index_of_name(ov, nm@, 0) is None,
            index_by_alias(ov, nm@, 0) == index_by_alias(ov, nm@, c as nat),
        decreases opts.len() - c,
    {
        proof {
            assert(ov[c as int] == opts@[c as int]@);
            assert(ov[c as int].aliases =~= opts@[c as int].aliases@.map_values(|a: Name| a@));
        }
        if aliases_contain(&opts[c].aliases, nm) {
            proof {
                lemma_index_of_name(ov, ov[c as int].name, 0);
            }
            return position_of_name(opts, &opts[c].name);
        }
        c = c + 1;
    }
    None
}

/// The reasons for which parsing can fail.
#[derive(Clone, Debug, PartialEq, Eq)]
pub enum Fail {
    /// The option requires an argument but none was passed.
    ArgumentMissing(String),
    /// The passed option is not declared among the possible options.
    UnrecognizedOption(String),
    /// A required option is not present.
    OptionMissing(String),
    /// A single occurrence option is being used multiple times.
    OptionDuplicated(String),
    /// There's an argument being passed to a non-argument option.
    UnexpectedArgument(String),
}

pub enum FailV {
    ArgumentMissing(Seq<char>),
    UnrecognizedOption(Seq<char>),
    OptionMissing(Seq<char>),
    OptionDuplicated(Seq<char>),
    UnexpectedArgument(Seq<char>),
}

impl View for Fail {
    type V = FailV;

    open spec fn view(&self) -> FailV {
        match self {
            Fail::ArgumentMissing(s) => FailV::ArgumentMissing(s@),
            Fail::UnrecognizedOption(s) => FailV::UnrecognizedOption(s@),
            Fail::OptionMissing(s) => FailV::OptionMissing(s@),
            Fail::OptionDuplicated(s) => FailV::OptionDuplicated(s@),
            Fail::UnexpectedArgument(s) => FailV::UnexpectedArgument(s@),
        }
    }
}


/// The message printed for a failure.
pub open spec fn fail_message(f: FailV) -> Seq<char> {
    match f {
        FailV::ArgumentMissing(nm) => "FATAL: Argument to option '"@ + nm + "' is missing"@,
        FailV::UnrecognizedOption(nm) => "Unrecognized option: '"@ + nm + "'"@,
        FailV::OptionMissing(nm) => "Required option '"@ + nm + "' missing"@,
        FailV::OptionDuplicated(nm) => "FATAL: Option '"@ + nm + "' was given more than once"@,
        FailV::UnexpectedArgument(nm) => "FATAL: Option '"@ + nm + "' does not take an argument"@,
    }
}

/// A short description of the kind of a failure.
pub open spec fn fail_description(f: FailV) -> Seq<char> {
    match f {
        FailV::ArgumentMissing(_) => "missing argument"@,
        FailV::UnrecognizedOption(_) => "unrecognized option"@,
        FailV::OptionMissing(_) => "missing option"@,
        FailV::OptionDuplicated(_) => "duplicated option"@,
        FailV::UnexpectedArgument(_) => "unexpected argument"@,
    }
}

fn framed(before: &str, nm: &String, after: &str) -> (r: String)
    ensures
        r@ == before@ + nm@ + after@,
{
    let mut s = String::from_str(before);
    s.append(nm.as_str());
    s.append(after);
    s
}

impl Fail {
    /// A short description of the kind of this failure.
    pub fn description(&self) -> (r: &'static str)
        ensures
            r@ == fail_description(self@),
    {
        match self {
            Fail::ArgumentMissing(_) => "missing argument",
            Fail::UnrecognizedOption(_) => "unrecognized option",
            Fail::OptionMissing(_) => "missing option",
            Fail::OptionDuplicated(_) => "duplicated option",
            Fail::UnexpectedArgument(_) => "unexpected argument",
        }
    }

    /// The message for this failure, naming the option concerned.
    pub fn to_string(&self) -> (r: String)
        ensures
            r@ == fail_message(self@),
    {
        match self {
            Fail::ArgumentMissing(nm) => framed("FATAL: Argument to option '", nm, "' is missing"),
            Fail::UnrecognizedOption(nm) => framed("Unrecognized option: '", nm, "'"),
            Fail::OptionMissing(nm) => framed("Required option '", nm, "' missing"),
            Fail::OptionDuplicated(nm) => framed(
                "FATAL: Option '",
                nm,
                "' was given more than once",
            ),
            Fail::UnexpectedArgument(nm) => framed(
                "FATAL: Option '",
                nm,
                "' does not take an argument",
            ),
        }
    }
}

} // verus!
