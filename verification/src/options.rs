//! Describing the accepted options, and parsing a command line against them.
use vstd::prelude::*;
use vstd::string::*;
use crate::grammar::{
    OptGroupV, OptionsV, ParsingStyle, add_val, attached_arg, group_opt, is_arg, is_double_dash,
    lemma_take_values_used, long_names, names_valid, no_vals, occurrence_failure, option_names,
    parse_spec, parse_words, short_names, take_values,
};
use crate::matches::{Matches, optvals_view, strings_view, vals_view};
use crate::names::{
    Fail, HasArg, Name, NameV, Occur, Opt, Optval, OptvalV, find_opt, opts_view,
};
use crate::text::{find_char, lemma_byte_len_one, substring};

verus! {

/// A described option group, as the builders record it.
pub struct OptGroup {
    short_name: String,
    long_name: String,
    hint: String,
    desc: String,
    hasarg: HasArg,
    occur: Occur,
}

impl View for OptGroup {
    type V = OptGroupV;

    closed spec fn view(&self) -> OptGroupV {
        OptGroupV {
            short_name: self.short_name@,
            long_name: self.long_name@,
            hint: self.hint@,
            desc: self.desc@,
            hasarg: self.hasarg,
            occur: self.occur,
        }
    }
}

/// A description of the options that a program handles.
pub struct Options {
    grps: Vec<OptGroup>,
    parsing_style: ParsingStyle,
    long_only: bool,
}

impl View for Options {
    type V = OptionsV;

    closed spec fn view(&self) -> OptionsV {
        OptionsV {
            grps: self.grps@.map_values(|g: OptGroup| g@),
            parsing_style: self.parsing_style,
            long_only: self.long_only,
        }
    }
}

/// Whether `short_name` and `long_name` are acceptable option names: the short name
/// is empty or a single byte, the long name empty or longer than a single byte.
pub fn validate_names(short_name: &str, long_name: &str) -> (ok: bool)
    ensures
        ok == names_valid(short_name@, long_name@),
{
    proof {
        lemma_byte_len_one(short_name@);
        lemma_byte_len_one(long_name@);
    }
    let sl = short_name.unicode_len();
    let short_ok = sl == 0 || (sl == 1 && (short_name.get_char(0) as u32) <= 0x7F);
    let ll = long_name.unicode_len();
    let long_one_byte = ll == 1 && (long_name.get_char(0) as u32) <= 0x7F;
    short_ok && !long_one_byte
}

impl OptGroup {
    fn new(
        short_name: &str,
        long_name: &str,
        hint: String,
        desc: &str,
        hasarg: HasArg,
        occur: Occur,
    ) -> (g: OptGroup)
        ensures
            g@ == (OptGroupV {
                short_name: short_name@,
                long_name: long_name@,
                hint: hint@,
                desc: desc@,
                hasarg,
                occur,
            }),
    {
        OptGroup {
            short_name: short_name.to_owned(),
            long_name: long_name.to_owned(),
            hint,
            desc: desc.to_owned(),
            hasarg,
            occur,
        }
    }

    /// The option this group describes: named by its long name when it has one, with
    /// the short name as an alias.
    fn long_to_short(&self) -> (r: Opt)
        requires
            self@.well_named(),
        ensures
            r@ == group_opt(self@),
    {
        proof {
            lemma_byte_len_one(self.short_name@);
        }
        let sl = self.short_name.unicode_len();
        let ll = self.long_name.unicode_len();
        if sl == 0 {
            let r = Opt {
                name: Name::Long(self.long_name.clone()),
                hasarg: self.hasarg,
                occur: self.occur,
                aliases: Vec::new(),
            };
            assert(r@.aliases =~= Seq::<NameV>::empty());
            r
        } else if ll == 0 {
            let r = Opt {
                name: Name::Short(self.short_name.get_char(0)),
                hasarg: self.hasarg,
                occur: self.occur,
                aliases: Vec::new(),
            };
            assert(r@.aliases =~= Seq::<NameV>::empty());
            r
        } else {
            let mut aliases: Vec<Name> = Vec::new();
            aliases.push(Name::Short(self.short_name.get_char(0)));
            let r = Opt {
                name: Name::Long(self.long_name.clone()),
                hasarg: self.hasarg,
                occur: self.occur,
                aliases,
            };
            assert(r@.aliases =~= seq![NameV::Short(self.short_name@[0])]);
            r
        }
    }
}

impl Options {
    /// Create a blank set of options.
    pub fn new() -> (r: Options)
        ensures
            r@ == (OptionsV {
                grps: Seq::empty(),
                parsing_style: ParsingStyle::FloatingFrees,
                long_only: false,
            }),
    {
        let r = Options { grps: Vec::new(), parsing_style: ParsingStyle::FloatingFrees, long_only: false };
        assert(r@.grps =~= Seq::<OptGroupV>::empty());
        r
    }

    /// Whether every described option has valid names and at least one of them, as
    /// parsing requires.
    pub fn is_parseable(&self) -> (ok: bool)
        ensures
            ok == self@.parseable(),
    {
        let mut i: usize = 0;
        while i < self.grps.len()
            invariant
                i <= self.grps.len(),
                forall|k: int| 0 <= k < i ==> (#[trigger] self@.grps[k]).well_named(),
            decreases self.grps.len() - i,
        {
            let g = &self.grps[i];
            assert(self@.grps[i as int] == g@);
            if !validate_names(g.short_name.as_str(), g.long_name.as_str()) {
                return false;
            }
            if g.short_name.unicode_len() == 0 && g.long_name.unicode_len() == 0 {
                return false;
            }
            i = i + 1;
        }
        true
    }

    fn push_group(&mut self, g: OptGroup) -> (r: &mut Options)
        ensures
            r@ == old(self)@.with_group(g@),
            *final(self) == *final(r),
    {
        self.grps.push(g);
        assert(self@.grps =~= old(self)@.grps.push(g@));
        self
    }

    /// Create a long option that is optional and does not take an argument.
    ///
    /// * `short_name` - e.g. `"h"` for a `-h` option, or `""` for none
    /// * `long_name` - e.g. `"help"` for a `--help` option, or `""` for none
    /// * `desc` - Description for usage help
    pub fn optflag(&mut self, short_name: &str, long_name: &str, desc: &str) -> (r: &mut Options)
        requires
            names_valid(short_name@, long_name@),
        ensures
            r@ == old(self)@.with_group(
                OptGroupV {
                    short_name: short_name@,
                    long_name: long_name@,
                    hint: Seq::empty(),
                    desc: desc@,
                    hasarg: HasArg::No,
                    occur: Occur::Optional,
                },
            ),
            *final(self) == *final(r),
    {
        let g = OptGroup::new(short_name, long_name, String::new(), desc, HasArg::No, Occur::Optional);
        self.push_group(g)
    }

    /// Create a long option that can occur more than once and does not
    /// take an argument.
    ///
    /// * `short_name` - e.g. `"h"` for a `-h` option, or `""` for none
    /// * `long_name` - e.g. `"help"` for a `--help` option, or `""` for none
    /// * `desc` - Description for usage help
    pub fn optflagmulti(&mut self, short_name: &str, long_name: &str, desc: &str) -> (r:
        &mut Options)
        requires
            names_valid(short_name@, long_name@),
        ensures
            r@ == old(self)@.with_group(
                OptGroupV {
                    short_name: short_name@,
                    long_name: long_name@,
                    hint: Seq::empty(),
                    desc: desc@,
                    hasarg: HasArg::No,
                    occur: Occur::Multi,
                },
            ),
            *final(self) == *final(r),
    {
        let g = OptGroup::new(short_name, long_name, String::new(), desc, HasArg::No, Occur::Multi);
        self.push_group(g)
    }

    /// Create a long option that is optional and takes an optional argument.
    ///
    /// * `short_name` - e.g. `"h"` for a `-h` option, or `""` for none
    /// * `long_name` - e.g. `"help"` for a `--help` option, or `""` for none
    /// * `desc` - Description for usage help
    /// * `hint` - Hint that is used in place of the argument in the usage help,
    ///   e.g. `"FILE"` for a `-o FILE` option
    pub fn optflagopt(&mut self, short_name: &str, long_name: &str, desc: &str, hint: &str) -> (r:
        &mut Options)
        requires
            names_valid(short_name@, long_name@),
        ensures
            r@ == old(self)@.with_group(
                OptGroupV {
                    short_name: short_name@,
                    long_name: long_name@,
                    hint: hint@,
                    desc: desc@,
                    hasarg: HasArg::Maybe,
                    occur: Occur::Optional,
                },
            ),
            *final(self) == *final(r),
    {
        let g = OptGroup::new(short_name, long_name, hint.to_owned(), desc, HasArg::Maybe, Occur::Optional);
        self.push_group(g)
    }

    /// Create a long option that is optional, takes an argument, and may occur
    /// multiple times.
    ///
    /// * `short_name` - e.g. `"h"` for a `-h` option, or `""` for none
    /// * `long_name` - e.g. `"help"` for a `--help` option, or `""` for none
    /// * `desc` - Description for usage help
    /// * `hint` - Hint that is used in place of the argument in the usage help,
    ///   e.g. `"FILE"` for a `-o FILE` option
    pub fn optmulti(&mut self, short_name: &str, long_name: &str, desc: &str, hint: &str) -> (r:
        &mut Options)
        requires
            names_valid(short_name@, long_name@),
        ensures
            r@ == old(self)@.with_group(
                OptGroupV {
                    short_name: short_name@,
                    long_name: long_name@,
                    hint: hint@,
                    desc: desc@,
                    hasarg: HasArg::Yes,
                    occur: Occur::Multi,
                },
            ),
            *final(self) == *final(r),
    {
        let g = OptGroup::new(short_name, long_name, hint.to_owned(), desc, HasArg::Yes, Occur::Multi);
        self.push_group(g)
    }

    /// Create a long option that is optional and takes an argument.
    ///
    /// * `short_name` - e.g. `"h"` for a `-h` option, or `""` for none
    /// * `long_name` - e.g. `"help"` for a `--help` option, or `""` for none
    /// * `desc` - Description for usage help
    /// * `hint` - Hint that is used in place of the argument in the usage help,
    ///   e.g. `"FILE"` for a `-o FILE` option
    pub fn optopt(&mut self, short_name: &str, long_name: &str, desc: &str, hint: &str) -> (r:
        &mut Options)
        requires
            names_valid(short_name@, long_name@),
        ensures
            r@ == old(self)@.with_group(
                OptGroupV {
                    short_name: short_name@,
                    long_name: long_name@,
                    hint: hint@,
                    desc: desc@,
                    hasarg: HasArg::Yes,
                    occur: Occur::Optional,
                },
            ),
            *final(self) == *final(r),
    {
        let g = OptGroup::new(short_name, long_name, hint.to_owned(), desc, HasArg::Yes, Occur::Optional);
        self.push_group(g)
    }

    /// Create a long option that is required and takes an argument.
    ///
    /// * `short_name` - e.g. `"h"` for a `-h` option, or `""` for none
    /// * `long_name` - e.g. `"help"` for a `--help` option, or `""` for none
    /// * `desc` - Description for usage help
    /// * `hint` - Hint that is used in place of the argument in the usage help,
    ///   e.g. `"FILE"` for a `-o FILE` option
    pub fn reqopt(&mut self, short_name: &str, long_name: &str, desc: &str, hint: &str) -> (r:
        &mut Options)
        requires
            names_valid(short_name@, long_name@),
        ensures
            r@ == old(self)@.with_group(
                OptGroupV {
                    short_name: short_name@,
                    long_name: long_name@,
                    hint: hint@,
                    desc: desc@,
                    hasarg: HasArg::Yes,
                    occur: Occur::Req,
                },
            ),
            *final(self) == *final(r),
    {
        let g = OptGroup::new(short_name, long_name, hint.to_owned(), desc, HasArg::Yes, Occur::Req);
        self.push_group(g)
    }
}


pub open spec fn names_view(v: Seq<Name>) -> Seq<NameV> {
    v.map_values(|n: Name| n@)
}

pub open spec fn opt_string_view(o: Option<String>) -> Option<Seq<char>> {
    match o {
        Some(s) => Some(s@),
        None => None,
    }
}

/// Whether a word names options.
fn is_arg_word(s: &str) -> (b: bool)
    ensures
        b == is_arg(s@),
{
    s.unicode_len() > 1 && s.get_char(0) == '-'
}

/// Whether a word is `--`.
fn is_double_dash_word(s: &str) -> (b: bool)
    ensures
        b == is_double_dash(s@),
{
    if s.unicode_len() == 2 && s.get_char(0) == '-' && s.get_char(1) == '-' {
        assert(s@ =~= seq!['-', '-']);
        true
    } else {
        false
    }
}

/// Appends the words `from..` of `args` to `free`.
fn push_rest(free: &mut Vec<String>, args: &Vec<String>, from: usize)
    requires
        from <= args.len(),
    ensures
        strings_view(final(free)@) == strings_view(old(free)@) + strings_view(args@).skip(
            from as int,
        ),
{
    let ghost start = strings_view(free@);
    let mut j: usize = from;
    while j < args.len()
        invariant
            from <= j <= args.len(),
            strings_view(free@) == start + strings_view(args@).subrange(from as int, j as int),
        decreases args.len() - j,
    {
        let ghost before = strings_view(free@);
        free.push(args[j].clone());
        assert(strings_view(free@) =~= before.push(args@[j as int]@));
        assert(strings_view(free@) =~= start + strings_view(args@).subrange(
            from as int,
            j + 1 as int,
        ));
        j = j + 1;
    }
    assert(strings_view(args@).subrange(from as int, args.len() as int) =~= strings_view(
        args@,
    ).skip(from as int));
}

/// Records one more occurrence of option `id`.
fn push_val(vals: &mut Vec<Vec<Optval>>, id: usize, v: Optval)
    requires
        id < old(vals).len(),
    ensures
        final(vals).len() == old(vals).len(),
        vals_view(final(vals)@) == add_val(vals_view(old(vals)@), id as nat, v@),
{
    let ghost vv = v@;
    vals[id].push(v);
    assert(vals_view(vals@) =~= add_val(vals_view(old(vals)@), id as nat, vv)) by {
        assert(optvals_view(vals@[id as int]@) =~= optvals_view(old(vals)@[id as int]@).push(vv));
    }
}

/// The name after the dashes of a long-form word, and the argument after its first `=`.
fn long_names_exec(cur: &str) -> (r: (Vec<Name>, Option<String>))
    requires
        cur@.len() > 1,
    ensures
        names_view(r.0@) == long_names(cur@).0,
        opt_string_view(r.1) == long_names(cur@).1,
{
    let len = cur.unicode_len();
    let start: usize = if cur.get_char(1) == '-' {
        2
    } else {
        1
    };
    let tail = substring(cur, start, len);
    assert(tail@ =~= if cur@[1] == '-' {
        cur@.skip(2)
    } else {
        cur@.skip(1)
    });
    let tl = tail.unicode_len();
    let mut p: usize = 0;
    while p < tl && tail.get_char(p) != '='
        invariant
            p <= tl,
            tl == tail@.len(),
            find_char(tail@, '=', 0) == find_char(tail@, '=', p as nat),
        decreases tl - p,
    {
        p = p + 1;
    }
    let mut names: Vec<Name> = Vec::new();
    if p < tl {
        names.push(Name::from_str(substring(tail.as_str(), 0, p).as_str()));
        assert(tail@.subrange(0, p as int) =~= tail@.take(p as int));
        assert(names_view(names@) =~= long_names(cur@).0);
        (names, Some(substring(tail.as_str(), p + 1, tl)))
    } else {
        names.push(Name::from_str(tail.as_str()));
        assert(names_view(names@) =~= long_names(cur@).0);
        (names, None)
    }
}

/// The names of a cluster of short options, and the argument attached to the last.
fn short_names_exec(opts: &Vec<Opt>, cur: &str) -> (r: Result<(Vec<Name>, Option<String>), Fail>)
    ensures
        match short_names(opts_view(opts@), cur@, 1, seq![]) {
            Ok((n, a)) => r matches Ok((rn, ra)) && names_view(rn@) == n && opt_string_view(ra)
                == a,
            Err(e) => r matches Err(f) && f@ == e,
        },
{
    let ghost ov = opts_view(opts@);
    let len = cur.unicode_len();
    let mut names: Vec<Name> = Vec::new();
    assert(names_view(names@) =~= Seq::<NameV>::empty());
    let mut k: usize = 1;
    while k < len
        invariant
            1 <= k,
            len == cur@.len(),
            ov == opts_view(opts@),
            short_names(ov, cur@, 1, seq![]) == short_names(ov, cur@, k as nat, names_view(names@)),
        decreases len - k,
    {
        let ch = cur.get_char(k);
        let opt = Name::Short(ch);
        let id = match find_opt(opts, &opt) {
            Some(id) => id,
            None => {
                return Err(Fail::UnrecognizedOption(opt.to_string()));
            },
        };
        let ghost before = names_view(names@);
        names.push(opt);
        assert(names_view(names@) =~= before.push(NameV::Short(ch)));
        assert(ov[id as int] == opts@[id as int]@);
        let arg_follows = match opts[id].hasarg {
            HasArg::Yes | HasArg::Maybe => true,
            HasArg::No => false,
        };
        if arg_follows && k + 1 < len {
            let from = if cur.get_char(k + 1) == '=' {
                k + 2
            } else {
                k + 1
            };
            let arg = substring(cur, from, len);
            assert(arg@ =~= attached_arg(cur@.skip(k + 1 as int)));
            return Ok((names, Some(arg)));
        }
        k = k + 1;
    }
    Ok((names, None))
}

/// The names an option word holds, the argument attached to it, and whether it was long.
fn option_names_exec(opts: &Vec<Opt>, long_only: bool, cur: &str) -> (r: Result<
    (Vec<Name>, Option<String>, bool),
    Fail,
>)
    requires
        is_arg(cur@),
    ensures
        match option_names(opts_view(opts@), long_only, cur@) {
            Ok((n, a, w)) => r matches Ok((rn, ra, rw)) && names_view(rn@) == n
                && opt_string_view(ra) == a && rw == w,
            Err(e) => r matches Err(f) && f@ == e,
        },
{
    if cur.get_char(1) == '-' || long_only {
        let (names, iarg) = long_names_exec(cur);
        Ok((names, iarg, true))
    } else {
        match short_names_exec(opts, cur) {
            Ok((names, iarg)) => Ok((names, iarg, false)),
            Err(e) => Err(e),
        }
    }
}

/// Records the named options, taking their arguments from the attached argument or
/// from the words `start..` of `args`; gives how many of those words were taken.
fn take_values_exec(
    opts: &Vec<Opt>,
    names: &Vec<Name>,
    attached: Option<String>,
    was_long: bool,
    args: &Vec<String>,
    start: usize,
    vals: &mut Vec<Vec<Optval>>,
) -> (r: Result<usize, Fail>)
    requires
        start <= args.len(),
        old(vals).len() == opts.len(),
    ensures
        final(vals).len() == old(vals).len(),
        match take_values(
            opts_view(opts@),
            names_view(names@),
            0,
            opt_string_view(attached),
            was_long,
            strings_view(args@).skip(start as int),
            0,
            vals_view(old(vals)@),
        ) {
            Ok((v, u)) => r matches Ok(ru) && ru == u && vals_view(final(vals)@) == v,
            Err(e) => r matches Err(f) && f@ == e,
        },
{
    let ghost ov = opts_view(opts@);
    let ghost nv = names_view(names@);
    let ghost rest = strings_view(args@).skip(start as int);
    let ghost iv0 = opt_string_view(attached);
    let ghost whole = take_values(ov, nv, 0, iv0, was_long, rest, 0, vals_view(vals@));
    let mut iarg = attached;
    let mut used: usize = 0;
    let mut pos: usize = 0;
    while pos < names.len()
        invariant
            pos <= names.len(),
            start + used <= args.len(),
            vals.len() == opts.len(),
            old(vals).len() == opts.len(),
            iv0 == opt_string_view(attached),
            ov == opts_view(opts@),
            nv == names_view(names@),
            whole == take_values(ov, nv, 0, iv0, was_long, rest, 0, vals_view(old(vals)@)),
            rest == strings_view(args@).skip(start as int),
            whole == take_values(ov, nv, pos as nat, opt_string_view(iarg), was_long, rest, used as nat, vals_view(vals@)),
        decreases names.len() - pos,
    {
        let nm = &names[pos];
        let last = pos + 1 == names.len();
        assert(nv[pos as int] == nm@);
        let id = match find_opt(opts, nm) {
            Some(id) => id,
            None => {
                return Err(Fail::UnrecognizedOption(nm.to_string()));
            },
        };
        assert(ov[id as int] == opts@[id as int]@);
        match opts[id].hasarg {
            HasArg::No => {
                if last && iarg.is_some() {
                    return Err(Fail::UnexpectedArgument(nm.to_string()));
                }
                push_val(vals, id, Optval::Given);
            },
            HasArg::Maybe => {
                let taken = iarg;
                iarg = None;
                match taken {
                    Some(a) => {
                        push_val(vals, id, Optval::Val(a));
                    },
                    None => {
                        if was_long || !last || start + used >= args.len() || is_arg_word(
                            args[start + used].as_str(),
                        ) {
                            push_val(vals, id, Optval::Given);
                        } else {
                            assert(rest[used as int] == args@[start + used]@);
                            push_val(vals, id, Optval::Val(args[start + used].clone()));
                            used = used + 1;
                        }
                    },
                }
            },
            HasArg::Yes => {
                let taken = iarg;
                iarg = None;
                match taken {
                    Some(a) => {
                        push_val(vals, id, Optval::Val(a));
                    },
                    None => {
                        if start + used < args.len() {
                            assert(rest[used as int] == args@[start + used]@);
                            push_val(vals, id, Optval::Val(args[start + used].clone()));
                            used = used + 1;
                        } else {
                            return Err(Fail::ArgumentMissing(nm.to_string()));
                        }
                    },
                }
            },
        }
        pos = pos + 1;
    }
    Ok(used)
}

impl Options {
    /// Parses the command-line words `args` (without the program name) against these
    /// options: the values of each option and the free words, or why they do not fit.
    pub fn parse(&self, args: Vec<String>) -> (r: Result<Matches, Fail>)
        requires
            self@.parseable(),
        ensures
            match parse_spec(self@, strings_view(args@)) {
                Ok(m) => r matches Ok(rm) && rm@ == m && rm.wf(),
                Err(e) => r matches Err(f) && f@ == e,
            },
    {
        let ghost sv = self@;
        let mut opts: Vec<Opt> = Vec::new();
        let mut g: usize = 0;
        while g < self.grps.len()
            invariant
                g <= self.grps.len(),
                sv == self@,
                sv.parseable(),
                opts.len() == g,
                forall|k: int| 0 <= k < g ==> #[trigger] opts@[k]@ == group_opt(sv.grps[k]),
            decreases self.grps.len() - g,
        {
            assert(sv.grps[g as int] == self.grps@[g as int]@);
            opts.push(self.grps[g].long_to_short());
            g = g + 1;
        }
        let ghost ov = opts_view(opts@);
        assert(ov =~= sv.opts());
        let mut vals: Vec<Vec<Optval>> = Vec::new();
        let mut v: usize = 0;
        while v < opts.len()
            invariant
                v <= opts.len(),
                vals.len() == v,
                forall|k: int| 0 <= k < v ==> (#[trigger] vals@[k])@.len() == 0,
            decreases opts.len() - v,
        {
            vals.push(Vec::new());
            v = v + 1;
        }
        assert forall|k: int| 0 <= k < opts.len() implies vals_view(vals@)[k] =~= no_vals(
            opts.len() as nat,
        )[k] by {
            assert(vals@[k]@.len() == 0);
        }
        assert(vals_view(vals@) =~= no_vals(opts.len() as nat));
        let mut free: Vec<String> = Vec::new();
        let ghost aw = strings_view(args@);
        let ghost whole = parse_words(ov, sv.parsing_style, sv.long_only, aw, vals_view(vals@), strings_view(free@));
        assert(aw.skip(0) =~= aw);
        assert(strings_view(free@) =~= Seq::<Seq<char>>::empty());
        let mut i: usize = 0;
        while i < args.len()
            invariant
                i <= args.len(),
                sv == self@,
                vals.len() == opts.len(),
                ov == opts_view(opts@),
                ov == sv.opts(),
                aw == strings_view(args@),
                whole == parse_words(ov, sv.parsing_style, sv.long_only, aw, no_vals(ov.len()), seq![]),
                whole == parse_words(ov, sv.parsing_style, sv.long_only, aw.skip(i as int), vals_view(vals@), strings_view(free@)),
            decreases args.len() - i,
        {
            let ghost here = aw.skip(i as int);
            assert(here[0] == args@[i as int]@);
            assert(here.drop_first() =~= aw.skip(i + 1));
            if !is_arg_word(args[i].as_str()) {
                let ghost fb = strings_view(free@);
                free.push(args[i].clone());
                assert(strings_view(free@) =~= fb.push(here[0]));
                match self.parsing_style {
                    ParsingStyle::FloatingFrees => {
                        i = i + 1;
                    },
                    ParsingStyle::StopAtFirstFree => {
                        push_rest(&mut free, &args, i + 1);
                        i = args.len();
                        assert(aw.skip(i as int) =~= Seq::<Seq<char>>::empty());
                    },
                }
            } else if is_double_dash_word(args[i].as_str()) {
                push_rest(&mut free, &args, i + 1);
                i = args.len();
                assert(aw.skip(i as int) =~= Seq::<Seq<char>>::empty());
            } else {
                match option_names_exec(&opts, self.long_only, args[i].as_str()) {
                    Err(e) => {
                        return Err(e);
                    },
                    Ok((names, iarg, was_long)) => {
                        let ghost vals0 = vals_view(vals@);
                        let ghost iv = opt_string_view(iarg);
                        match take_values_exec(&opts, &names, iarg, was_long, &args, i + 1, &mut vals) {
                            Err(e) => {
                                return Err(e);
                            },
                            Ok(used) => {
                                proof {
                                    lemma_take_values_used(ov, names_view(names@), 0, iv, was_long, here.drop_first(), 0, vals0);
                                }
                                assert(here.drop_first().skip(used as int) =~= aw.skip(i + 1 + used));
                                i = i + 1 + used;
                            },
                        }
                    },
                }
            }
        }
        assert(aw.skip(i as int) =~= Seq::<Seq<char>>::empty());
        let ghost vv = vals_view(vals@);
        assert(whole == Ok::<(Seq<Seq<OptvalV>>, Seq<Seq<char>>), crate::names::FailV>((vv, strings_view(free@))));
        let mut j: usize = 0;
        while j < opts.len()
            invariant
                j <= opts.len(),
                vals.len() == opts.len(),
                ov == opts_view(opts@),
                ov == sv.opts(),
                aw == strings_view(args@),
                sv == self@,
                vv == vals_view(vals@),
                whole == parse_words(ov, sv.parsing_style, sv.long_only, aw, no_vals(ov.len()), seq![]),
                whole == Ok::<(Seq<Seq<OptvalV>>, Seq<Seq<char>>), crate::names::FailV>((vv, strings_view(free@))),
                occurrence_failure(ov, vv, 0) == occurrence_failure(ov, vv, j as nat),
            decreases opts.len() - j,
        {
            assert(ov[j as int] == opts@[j as int]@);
            assert(vv[j as int].len() == vals@[j as int].len());
            if opts[j].occur == Occur::Req && vals[j].len() == 0 {
                return Err(Fail::OptionMissing(opts[j].name.to_string()));
            }
            if opts[j].occur != Occur::Multi && vals[j].len() > 1 {
                return Err(Fail::OptionDuplicated(opts[j].name.to_string()));
            }
            j = j + 1;
        }
        Ok(Matches::from_parts(opts, vals, free))
    }
}


/// Text that stands in a synopsis only when `cond` holds.
pub open spec fn text_if(cond: bool, text: Seq<char>) -> Seq<char> {
    if cond {
        text
    } else {
        Seq::empty()
    }
}

/// How an option is named in a synopsis: by its short name when it has one.
pub open spec fn synopsis_name(g: OptGroupV) -> Seq<char> {
    if g.short_name.len() > 0 {
        "-"@ + g.short_name
    } else {
        "--"@ + g.long_name
    }
}

/// The argument part of a synopsis: the hint, in brackets when the argument is optional.
pub open spec fn synopsis_arg(g: OptGroupV) -> Seq<char> {
    text_if(
        g.hasarg != HasArg::No,
        " "@ + text_if(g.hasarg == HasArg::Maybe, "["@) + g.hint + text_if(
            g.hasarg == HasArg::Maybe,
            "]"@,
        ),
    )
}

/// The synopsis of one option in a usage line, e.g. `[-o NAME]` or `[--verbose]..`.
pub open spec fn option_synopsis(g: OptGroupV) -> Seq<char> {
    text_if(g.occur != Occur::Req, "["@) + synopsis_name(g) + synopsis_arg(g) + text_if(
        g.occur != Occur::Req,
        "]"@,
    ) + text_if(g.occur == Occur::Multi, ".."@)
}

/// The items of `list` with `sep` between each two.
pub open spec fn join_words(list: Seq<Seq<char>>, sep: Seq<char>) -> Seq<char>
    decreases list.len(),
{
    if list.len() == 0 {
        Seq::empty()
    } else if list.len() == 1 {
        list[0]
    } else {
        join_words(list.drop_last(), sep) + sep + list.last()
    }
}

/// The one-line usage summary for a program with the given options.
pub open spec fn usage_line(program_name: Seq<char>, o: OptionsV) -> Seq<char> {
    "Usage: "@ + program_name + " "@ + join_words(
        o.grps.map_values(|g: OptGroupV| option_synopsis(g)),
        " "@,
    )
}

fn literal_if(cond: bool, text: &str) -> (r: String)
    ensures
        r@ == text_if(cond, text@),
{
    if cond {
        String::from_str(text)
    } else {
        String::new()
    }
}

fn name_part(opt: &OptGroup) -> (r: String)
    ensures
        r@ == synopsis_name(opt@),
{
    if opt.short_name.unicode_len() > 0 {
        let mut r = String::from_str("-");
        r.append(opt.short_name.as_str());
        r
    } else {
        let mut r = String::from_str("--");
        r.append(opt.long_name.as_str());
        r
    }
}

fn arg_part(opt: &OptGroup) -> (r: String)
    ensures
        r@ == synopsis_arg(opt@),
{
    if opt.hasarg != HasArg::No {
        let maybe = opt.hasarg == HasArg::Maybe;
        let mut r = String::from_str(" ");
        r.append(literal_if(maybe, "[").as_str());
        r.append(opt.hint.as_str());
        r.append(literal_if(maybe, "]").as_str());
        r
    } else {
        String::new()
    }
}

/// The synopsis of one option group.
fn format_option(opt: &OptGroup) -> (line: String)
    ensures
        line@ == option_synopsis(opt@),
{
    let optional = opt.occur != Occur::Req;
    let mut line = literal_if(optional, "[");
    line.append(name_part(opt).as_str());
    line.append(arg_part(opt).as_str());
    line.append(literal_if(optional, "]").as_str());
    line.append(literal_if(opt.occur == Occur::Multi, "..").as_str());
    line
}

impl Options {
    /// Derive a short one-line usage summary from a set of long options.
    pub fn short_usage(&self, program_name: &str) -> (line: String)
        ensures
            line@ == usage_line(program_name@, self@),
    {
        let ghost items = self@.grps.map_values(|g: OptGroupV| option_synopsis(g));
        let mut line = String::from_str("Usage: ");
        line.append(program_name);
        line.append(" ");
        let ghost prefix = line@;
        let n = self.grps.len();
        let mut i: usize = 0;
        while i < n
            invariant
                i <= n,
                n == self.grps@.len(),
                items == self@.grps.map_values(|g: OptGroupV| option_synopsis(g)),
                line@ == prefix + join_words(items.take(i as int), " "@),
            decreases n - i,
        {
            assert(items[i as int] == option_synopsis(self.grps@[i as int]@));
            let item = format_option(&self.grps[i]);
            if i > 0 {
                line.append(" ");
            }
            line.append(item.as_str());
            assert(items.take(i + 1).drop_last() =~= items.take(i as int));
            if i == 0 {
                assert(join_words(items.take(1), " "@) == items[0]);
            }
            assert(line@ =~= prefix + join_words(items.take(i + 1), " "@));
            i = i + 1;
        }
        assert(items.take(n as int) =~= items);
        line
    }
}

} // verus!
