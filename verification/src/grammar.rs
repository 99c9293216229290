//! What parsing a command line means: the option descriptions that the builders
//! record, and the reading of a sequence of words against them.
use vstd::prelude::*;
use crate::matches::MatchesV;
use crate::names::{
    FailV, HasArg, NameV, Occur, OptV, OptvalV, find_opt_spec, lemma_find_opt_bounds, name_from,
    name_text,
};
use crate::text::{byte_len, find_char};

verus! {

/// How free words (those that are not options) affect the rest of the command line.
#[derive(Clone, Copy, Debug, PartialEq, Eq, Structural)]
pub enum ParsingStyle {
    /// Flags and "free" arguments can be freely inter-mixed.
    FloatingFrees,
    /// As soon as a "free" argument (i.e. non-flag) is encountered, stop
    /// considering any remaining arguments as flags.
    StopAtFirstFree,
}

/// Mathematical value of a described option group.
pub struct OptGroupV {
    pub short_name: Seq<char>,
    pub long_name: Seq<char>,
    pub hint: Seq<char>,
    pub desc: Seq<char>,
    pub hasarg: HasArg,
    pub occur: Occur,
}

/// Mathematical value of [`crate::options::Options`].
pub struct OptionsV {
    pub grps: Seq<OptGroupV>,
    pub parsing_style: ParsingStyle,
    pub long_only: bool,
}

/// Names accepted by the builders: the short name is empty or one byte long, the
/// long name is empty or longer than one byte.
pub open spec fn names_valid(short_name: Seq<char>, long_name: Seq<char>) -> bool {
    byte_len(short_name) <= 1 && byte_len(long_name) != 1
}

impl OptGroupV {
    /// The group's names are valid, and it has at least one.
    pub open spec fn well_named(self) -> bool {
        &&& names_valid(self.short_name, self.long_name)
        &&& (self.short_name.len() > 0 || self.long_name.len() > 0)
    }
}

impl OptionsV {
    pub open spec fn with_group(self, g: OptGroupV) -> OptionsV {
        OptionsV { grps: self.grps.push(g), ..self }
    }

    /// Every described group is well named.
    pub open spec fn parseable(self) -> bool {
        forall|i: int| 0 <= i < self.grps.len() ==> (#[trigger] self.grps[i]).well_named()
    }

    /// The options as parsing sees them.
    pub open spec fn opts(self) -> Seq<OptV> {
        self.grps.map_values(|g: OptGroupV| group_opt(g))
    }
}

/// The option a group describes: named by its long name when it has one (the short
/// name then an alias), else by its short name.
pub open spec fn group_opt(g: OptGroupV) -> OptV {
    if g.short_name.len() == 0 {
        OptV { name: NameV::Long(g.long_name), hasarg: g.hasarg, occur: g.occur, aliases: seq![] }
    } else if g.long_name.len() == 0 {
        OptV {
            name: NameV::Short(g.short_name[0]),
            hasarg: g.hasarg,
            occur: g.occur,
            aliases: seq![],
        }
    } else {
        OptV {
            name: NameV::Long(g.long_name),
            hasarg: g.hasarg,
            occur: g.occur,
            aliases: seq![NameV::Short(g.short_name[0])],
        }
    }
}

/// A word that names options: a dash followed by at least one character.
pub open spec fn is_arg(s: Seq<char>) -> bool {
    s.len() > 1 && s[0] == '-'
}

/// The word that ends option processing.
pub open spec fn is_double_dash(s: Seq<char>) -> bool {
    s == seq!['-', '-']
}

/// Records one more occurrence of option `id`.
pub open spec fn add_val(vals: Seq<Seq<OptvalV>>, id: nat, v: OptvalV) -> Seq<Seq<OptvalV>> {
    vals.update(id as int, vals[id as int].push(v))
}

/// Whether a word names options in the long form.
pub open spec fn long_form(long_only: bool, cur: Seq<char>) -> bool {
    cur[1] == '-' || long_only
}

/// A long-form word: the name after the dashes, and the argument after the first `=`.
pub open spec fn long_names(cur: Seq<char>) -> (Seq<NameV>, Option<Seq<char>>) {
    let tail = if cur[1] == '-' {
        cur.skip(2)
    } else {
        cur.skip(1)
    };
    match find_char(tail, '=', 0) {
        Some(i) => (seq![name_from(tail.take(i as int))], Some(tail.skip(i + 1 as int))),
        None => (seq![name_from(tail)], None),
    }
}

/// The argument attached to a short option: the rest of the word, after an `=` that
/// stands right behind the option.
pub open spec fn attached_arg(rest: Seq<char>) -> Seq<char> {
    if rest.len() > 0 && rest[0] == '=' {
        rest.skip(1)
    } else {
        rest
    }
}

/// A cluster of short options from position `k` on: each character names an option;
/// the first one that takes an argument takes the rest of the word, if any (without a
/// leading `=`).
pub open spec fn short_names(opts: Seq<OptV>, cur: Seq<char>, k: nat, names: Seq<NameV>) -> Result<
    (Seq<NameV>, Option<Seq<char>>),
    FailV,
>
    decreases cur.len() - k,
{
    if k >= cur.len() {
        Ok((names, None))
    } else {
        let ch = cur[k as int];
        match find_opt_spec(opts, NameV::Short(ch)) {
            None => Err(FailV::UnrecognizedOption(seq![ch])),
            Some(id) => {
                let names2 = names.push(NameV::Short(ch));
                if opts[id as int].hasarg != HasArg::No && k + 1 < cur.len() {
                    Ok((names2, Some(attached_arg(cur.skip(k + 1 as int)))))
                } else {
                    short_names(opts, cur, k + 1, names2)
                }
            },
        }
    }
}

/// The names an option word holds, the argument attached to it, and whether it was long.
pub open spec fn option_names(opts: Seq<OptV>, long_only: bool, cur: Seq<char>) -> Result<
    (Seq<NameV>, Option<Seq<char>>, bool),
    FailV,
> {
    if long_form(long_only, cur) {
        let (names, iarg) = long_names(cur);
        Ok((names, iarg, true))
    } else {
        match short_names(opts, cur, 1, seq![]) {
            Ok((names, iarg)) => Ok((names, iarg, false)),
            Err(e) => Err(e),
        }
    }
}

/// Records the names from position `pos` on, with the attached argument `iarg` and the
/// words `rest` that follow, of which `used` were already taken as arguments. Gives the
/// new values and how many following words were taken in all.
pub open spec fn take_values(
    opts: Seq<OptV>,
    names: Seq<NameV>,
    pos: nat,
    iarg: Option<Seq<char>>,
    was_long: bool,
    rest: Seq<Seq<char>>,
    used: nat,
    vals: Seq<Seq<OptvalV>>,
) -> Result<(Seq<Seq<OptvalV>>, nat), FailV>
    decreases names.len() - pos,
{
    if pos >= names.len() {
        Ok((vals, used))
    } else {
        let nm = names[pos as int];
        let last = pos + 1 == names.len();
        match find_opt_spec(opts, nm) {
            None => Err(FailV::UnrecognizedOption(name_text(nm))),
            Some(id) => match opts[id as int].hasarg {
                HasArg::No => {
                    if last && iarg is Some {
                        Err(FailV::UnexpectedArgument(name_text(nm)))
                    } else {
                        take_values(
                            opts,
                            names,
                            pos + 1,
                            iarg,
                            was_long,
                            rest,
                            used,
                            add_val(vals, id, OptvalV::Given),
                        )
                    }
                },
                HasArg::Maybe => match iarg {
                    Some(a) => take_values(
                        opts,
                        names,
                        pos + 1,
                        None,
                        was_long,
                        rest,
                        used,
                        add_val(vals, id, OptvalV::Val(a)),
                    ),
                    None => if was_long || !last || used >= rest.len() || is_arg(
                        rest[used as int],
                    ) {
                        take_values(
                            opts,
                            names,
                            pos + 1,
                            None,
                            was_long,
                            rest,
                            used,
                            add_val(vals, id, OptvalV::Given),
                        )
                    } else {
                        take_values(
                            opts,
                            names,
                            pos + 1,
                            None,
                            was_long,
                            rest,
                            used + 1,
                            add_val(vals, id, OptvalV::Val(rest[used as int])),
                        )
                    },
                },
                HasArg::Yes => match iarg {
                    Some(a) => take_values(
                        opts,
                        names,
                        pos + 1,
                        None,
                        was_long,
                        rest,
                        used,
                        add_val(vals, id, OptvalV::Val(a)),
                    ),
                    None => if used < rest.len() {
                        take_values(
                            opts,
                            names,
                            pos + 1,
                            None,
                            was_long,
                            rest,
                            used + 1,
                            add_val(vals, id, OptvalV::Val(rest[used as int])),
                        )
                    } else {
                        Err(FailV::ArgumentMissing(name_text(nm)))
                    },
                },
            },
        }
    }
}

pub proof fn lemma_take_values_used(
    opts: Seq<OptV>,
    names: Seq<NameV>,
    pos: nat,
    iarg: Option<Seq<char>>,
    was_long: bool,
    rest: Seq<Seq<char>>,
    used: nat,
    vals: Seq<Seq<OptvalV>>,
)
    requires
        used <= rest.len(),
    ensures
        take_values(opts, names, pos, iarg, was_long, rest, used, vals) matches Ok((v, u)) ==> used
            <= u <= rest.len() && (vals.len() == opts.len() ==> v.len() == opts.len()),
    decreases names.len() - pos,
{
    if pos < names.len() {
        let nm = names[pos as int];
        lemma_find_opt_bounds(opts, nm);
        match find_opt_spec(opts, nm) {
            None => {},
            Some(id) => {
                let v1 = add_val(vals, id, OptvalV::Given);
                lemma_take_values_used(opts, names, pos + 1, iarg, was_long, rest, used, v1);
                lemma_take_values_used(opts, names, pos + 1, None, was_long, rest, used, v1);
                if let Some(a) = iarg {
                    let v2 = add_val(vals, id, OptvalV::Val(a));
                    lemma_take_values_used(opts, names, pos + 1, None, was_long, rest, used, v2);
                }
                if used < rest.len() {
                    let v3 = add_val(vals, id, OptvalV::Val(rest[used as int]));
                    lemma_take_values_used(
                        opts,
                        names,
                        pos + 1,
                        None,
                        was_long,
                        rest,
                        used + 1,
                        v3,
                    );
                }
            },
        }
    }
}

/// Reads the words `args`, given the values and free words gathered so far.
pub open spec fn parse_words(
    opts: Seq<OptV>,
    style: ParsingStyle,
    long_only: bool,
    args: Seq<Seq<char>>,
    vals: Seq<Seq<OptvalV>>,
    free: Seq<Seq<char>>,
) -> Result<(Seq<Seq<OptvalV>>, Seq<Seq<char>>), FailV>
    decreases args.len(),
{
    if args.len() == 0 {
        Ok((vals, free))
    } else {
        let cur = args[0];
        let rest = args.drop_first();
        if !is_arg(cur) {
            match style {
                ParsingStyle::FloatingFrees => parse_words(
                    opts,
                    style,
                    long_only,
                    rest,
                    vals,
                    free.push(cur),
                ),
                ParsingStyle::StopAtFirstFree => Ok((vals, free.push(cur) + rest)),
            }
        } else if is_double_dash(cur) {
            Ok((vals, free + rest))
        } else {
            match option_names(opts, long_only, cur) {
                Err(e) => Err(e),
                Ok((names, iarg, was_long)) => match take_values(
                    opts,
                    names,
                    0,
                    iarg,
                    was_long,
                    rest,
                    0,
                    vals,
                ) {
                    Err(e) => Err(e),
                    Ok((vals2, used)) => {
                        proof {
                            lemma_take_values_used(opts, names, 0, iarg, was_long, rest, 0, vals);
                        }
                        parse_words(opts, style, long_only, rest.skip(used as int), vals2, free)
                    },
                },
            }
        }
    }
}

/// The first option whose number of occurrences its `Occur` rules out, from `i` on.
pub open spec fn occurrence_failure(opts: Seq<OptV>, vals: Seq<Seq<OptvalV>>, i: nat) -> Option<
    FailV,
>
    decreases opts.len() - i,
{
    if i >= opts.len() {
        None
    } else if opts[i as int].occur == Occur::Req && vals[i as int].len() == 0 {
        Some(FailV::OptionMissing(name_text(opts[i as int].name)))
    } else if opts[i as int].occur != Occur::Multi && vals[i as int].len() > 1 {
        Some(FailV::OptionDuplicated(name_text(opts[i as int].name)))
    } else {
        occurrence_failure(opts, vals, i + 1)
    }
}

/// No values recorded for any of `n` options.
pub open spec fn no_vals(n: nat) -> Seq<Seq<OptvalV>> {
    Seq::new(n, |i: int| Seq::<OptvalV>::empty())
}

/// The outcome of parsing the words `args` against the options `o`.
pub open spec fn parse_spec(o: OptionsV, args: Seq<Seq<char>>) -> Result<MatchesV, FailV> {
    let opts = o.opts();
    match parse_words(opts, o.parsing_style, o.long_only, args, no_vals(opts.len()), seq![]) {
        Err(e) => Err(e),
        Ok((vals, free)) => match occurrence_failure(opts, vals, 0) {
            Some(e) => Err(e),
            None => Ok(MatchesV { opts, vals, free }),
        },
    }
}

} // verus!
