//! Properties of parsing that hold for every set of options and every command line.
use vstd::prelude::*;
use crate::grammar::{
    OptGroupV, OptionsV, ParsingStyle, add_val, attached_arg, is_arg, lemma_take_values_used,
    long_names, no_vals, occurrence_failure, option_names, parse_spec, parse_words, short_names,
    take_values,
};
use crate::matches::{MatchesV, arg_strings};
use crate::names::{
    FailV, HasArg, NameV, Occur, OptV, OptvalV, find_opt_spec, index_by_alias, index_of_name,
    lemma_index_of_name, name_from, name_text,
};
use crate::text::{
    byte_len, char_width, find_char, is_white, lemma_byte_len_append, lemma_byte_len_one,
};
use crate::wrap::{
    Phase, SplitV, emit, split_run, split_start, split_step, split_tail, split_within,
    tail_measure,
};

verus! {

pub proof fn lemma_parse_words_len(
    opts: Seq<OptV>,
    style: ParsingStyle,
    long_only: bool,
    args: Seq<Seq<char>>,
    vals: Seq<Seq<OptvalV>>,
    free: Seq<Seq<char>>,
)
    requires
        vals.len() == opts.len(),
    ensures
        parse_words(opts, style, long_only, args, vals, free) matches Ok((v, f)) ==> v.len()
            == opts.len(),
    decreases args.len(),
{
    if args.len() > 0 {
        let cur = args[0];
        let rest = args.drop_first();
        if is_arg(cur) {
            match option_names(opts, long_only, cur) {
                Ok((names, iarg, was_long)) => {
                    lemma_take_values_used(opts, names, 0, iarg, was_long, rest, 0, vals);
                    match take_values(opts, names, 0, iarg, was_long, rest, 0, vals) {
                        Ok((v2, used)) => {
                            lemma_parse_words_len(
                                opts,
                                style,
                                long_only,
                                rest.skip(used as int),
                                v2,
                                free,
                            );
                        },
                        Err(_) => {},
                    }
                },
                Err(_) => {},
            }
        } else {
            lemma_parse_words_len(opts, style, long_only, rest, vals, free.push(cur));
        }
    }
}

/// With no occurrence failure from `j` on, each option from `j` on occurs as often as
/// its `Occur` allows.
pub proof fn lemma_no_occurrence_failure(opts: Seq<OptV>, vals: Seq<Seq<OptvalV>>, j: nat)
    requires
        vals.len() == opts.len(),
        occurrence_failure(opts, vals, j) is None,
    ensures
        forall|i: int|
            j <= i < opts.len() ==> (opts[i].occur == Occur::Req ==> vals[i].len() >= 1) && (
            opts[i].occur != Occur::Multi ==> vals[i].len() <= 1),
    decreases opts.len() - j,
{
    if j < opts.len() {
        lemma_no_occurrence_failure(opts, vals, j + 1);
    }
}

/// A successful parse respects every option's `Occur`: a required option occurs at
/// least once, and only an option that may occur many times occurs more than once.
pub proof fn law_parse_respects_occur(o: OptionsV, args: Seq<Seq<char>>)
    ensures
        parse_spec(o, args) matches Ok(m) ==> {
            &&& m.opts == o.opts()
            &&& m.vals.len() == m.opts.len()
            &&& forall|i: int|
                0 <= i < m.opts.len() ==> (m.opts[i].occur == Occur::Req ==> m.vals[i].len() >= 1)
                    && (m.opts[i].occur != Occur::Multi ==> m.vals[i].len() <= 1)
        },
{
    let opts = o.opts();
    let v0 = no_vals(opts.len());
    lemma_parse_words_len(opts, o.parsing_style, o.long_only, args, v0, seq![]);
    match parse_words(opts, o.parsing_style, o.long_only, args, v0, seq![]) {
        Ok((vals, free)) => {
            if occurrence_failure(opts, vals, 0) is None {
                lemma_no_occurrence_failure(opts, vals, 0);
            }
        },
        Err(_) => {},
    }
}

/// With no values recorded, the only possible failure is a required option.
pub proof fn lemma_occurrence_without_values(o: OptionsV, j: nat)
    ensures
        occurrence_failure(o.opts(), no_vals(o.opts().len()), j) is None <==> forall|i: int|
            j <= i < o.grps.len() ==> o.grps[i].occur != Occur::Req,
    decreases o.grps.len() - j,
{
    if j < o.grps.len() {
        lemma_occurrence_without_values(o, j + 1);
    }
}

/// No option is required.
pub open spec fn none_required(o: OptionsV) -> bool {
    forall|i: int| 0 <= i < o.grps.len() ==> o.grps[i].occur != Occur::Req
}

/// Words that are not options are kept, in order, as free words, wherever the parser
/// stands and whichever its parsing style.
pub proof fn law_free_words_kept(
    opts: Seq<OptV>,
    style: ParsingStyle,
    long_only: bool,
    args: Seq<Seq<char>>,
    vals: Seq<Seq<OptvalV>>,
    free: Seq<Seq<char>>,
)
    requires
        forall|i: int| 0 <= i < args.len() ==> !is_arg(#[trigger] args[i]),
    ensures
        parse_words(opts, style, long_only, args, vals, free) == Ok::<
            (Seq<Seq<OptvalV>>, Seq<Seq<char>>),
            FailV,
        >((vals, free + args)),
    decreases args.len(),
{
    if args.len() == 0 {
        assert(free + args =~= free);
    } else {
        let cur = args[0];
        let rest = args.drop_first();
        assert(free.push(cur) + rest =~= free + args);
        if style == ParsingStyle::FloatingFrees {
            assert forall|i: int| 0 <= i < rest.len() implies !is_arg(#[trigger] rest[i]) by {
                assert(rest[i] == args[i + 1]);
            }
            law_free_words_kept(opts, style, long_only, rest, vals, free.push(cur));
        }
    }
}

/// A command line without option words parses to its words as free words, with no
/// option present; it fails exactly when some option is required.
pub proof fn law_no_options_all_free(o: OptionsV, args: Seq<Seq<char>>)
    requires
        forall|i: int| 0 <= i < args.len() ==> !is_arg(#[trigger] args[i]),
    ensures
        parse_spec(o, args) is Ok <==> none_required(o),
        parse_spec(o, args) matches Ok(m) ==> m.free == args && m.vals == no_vals(o.grps.len()),
{
    let opts = o.opts();
    law_free_words_kept(opts, o.parsing_style, o.long_only, args, no_vals(opts.len()), seq![]);
    assert(Seq::<Seq<char>>::empty() + args =~= args);
    lemma_occurrence_without_values(o, 0);
}

/// The word `--` ends option processing: all words after it are free.
pub proof fn law_double_dash_ends_options(o: OptionsV, rest: Seq<Seq<char>>)
    ensures
        parse_spec(o, seq![seq!['-', '-']] + rest) is Ok <==> none_required(o),
        parse_spec(o, seq![seq!['-', '-']] + rest) matches Ok(m) ==> m.free == rest && m.vals
            == no_vals(o.grps.len()),
{
    let args = seq![seq!['-', '-']] + rest;
    assert(args[0] == seq!['-', '-']);
    assert(args.drop_first() =~= rest);
    assert(Seq::<Seq<char>>::empty() + rest =~= rest);
    lemma_occurrence_without_values(o, 0);
}

pub proof fn lemma_find_char_after(a: Seq<char>, b: Seq<char>, c: char, from: nat)
    requires
        from <= a.len(),
        find_char(a, c, from) is None,
    ensures
        find_char(a + seq![c] + b, c, from) == Some(a.len()),
    decreases a.len() - from,
{
    let s = a + seq![c] + b;
    if from < a.len() {
        assert(s[from as int] == a[from as int]);
        lemma_find_char_after(a, b, c, from + 1);
    } else {
        assert(s[from as int] == c);
    }
}

/// A long option that requires an argument takes it after `=` or as the next word,
/// alike: `--name=value` reads as `--name value`.
pub proof fn law_long_argument_equals_or_space(
    opts: Seq<OptV>,
    style: ParsingStyle,
    long_only: bool,
    name: Seq<char>,
    value: Seq<char>,
    rest: Seq<Seq<char>>,
    vals: Seq<Seq<OptvalV>>,
    free: Seq<Seq<char>>,
)
    requires
        name.len() > 0,
        find_char(name, '=', 0) is None,
        find_opt_spec(opts, name_from(name)) matches Some(id) && opts[id as int].hasarg
            == HasArg::Yes,
    ensures
        parse_words(
            opts,
            style,
            long_only,
            seq![seq!['-', '-'] + name + seq!['='] + value] + rest,
            vals,
            free,
        ) == parse_words(
            opts,
            style,
            long_only,
            seq![seq!['-', '-'] + name, value] + rest,
            vals,
            free,
        ),
{
    let id = find_opt_spec(opts, name_from(name))->0;
    let w1 = seq!['-', '-'] + name + seq!['='] + value;
    let w2 = seq!['-', '-'] + name;
    let a1 = seq![w1] + rest;
    let a2 = seq![w2, value] + rest;
    assert(a1[0] == w1);
    assert(a1.drop_first() =~= rest);
    assert(a2[0] == w2);
    let r2 = seq![value] + rest;
    assert(a2.drop_first() =~= r2);
    assert(r2[0] == value);
    assert(r2.skip(1) =~= rest);
    assert(rest.skip(0) =~= rest);
    assert(w1[0] == '-' && w1[1] == '-' && w1.len() > 2);
    assert(w2[0] == '-' && w2[1] == '-' && w2.len() > 2);
    assert(w1 != seq!['-', '-']);
    assert(w2 != seq!['-', '-']);
    let t1 = w1.skip(2);
    assert(t1 =~= name + seq!['='] + value);
    lemma_find_char_after(name, value, '=', 0);
    assert(t1.take(name.len() as int) =~= name);
    assert(t1.skip(name.len() + 1 as int) =~= value);
    assert(w2.skip(2) =~= name);
    assert(long_names(w1) == (seq![name_from(name)], Some(value)));
    assert(long_names(w2) == (seq![name_from(name)], None::<Seq<char>>));
    let names = seq![name_from(name)];
    let v2 = add_val(vals, id, OptvalV::Val(value));
    assert(take_values(opts, names, 1, None, true, rest, 0, v2) == Ok::<(Seq<Seq<OptvalV>>, nat), FailV>((v2, 0nat)));
    assert(take_values(opts, names, 1, None, true, r2, 1, v2) == Ok::<(Seq<Seq<OptvalV>>, nat), FailV>((v2, 1nat)));
    assert(take_values(opts, names, 0, Some(value), true, rest, 0, vals) == Ok::<(Seq<Seq<OptvalV>>, nat), FailV>((v2, 0nat)));
    assert(take_values(opts, names, 0, None, true, r2, 0, vals) == Ok::<(Seq<Seq<OptvalV>>, nat), FailV>((v2, 1nat)));
}

/// A short option that requires an argument takes it attached or as the next word,
/// alike: `-ovalue` reads as `-o value`.
pub proof fn law_short_argument_attached_or_space(
    opts: Seq<OptV>,
    style: ParsingStyle,
    c: char,
    value: Seq<char>,
    rest: Seq<Seq<char>>,
    vals: Seq<Seq<OptvalV>>,
    free: Seq<Seq<char>>,
)
    requires
        c != '-',
        value.len() > 0,
        value[0] != '=',
        find_opt_spec(opts, NameV::Short(c)) matches Some(id) && opts[id as int].hasarg
            == HasArg::Yes,
    ensures
        parse_words(opts, style, false, seq![seq!['-', c] + value] + rest, vals, free)
            == parse_words(opts, style, false, seq![seq!['-', c], value] + rest, vals, free),
{
    let id = find_opt_spec(opts, NameV::Short(c))->0;
    let w1 = seq!['-', c] + value;
    let w2 = seq!['-', c];
    let a1 = seq![w1] + rest;
    let a2 = seq![w2, value] + rest;
    assert(a1[0] == w1);
    assert(a1.drop_first() =~= rest);
    assert(a2[0] == w2);
    let r2 = seq![value] + rest;
    assert(a2.drop_first() =~= r2);
    assert(r2[0] == value);
    assert(r2.skip(1) =~= rest);
    assert(rest.skip(0) =~= rest);
    assert(w1[0] == '-' && w1[1] == c && w1.len() > 2);
    assert(w1 != seq!['-', '-']);
    assert(w2 != seq!['-', '-']);
    assert(w1.skip(2) =~= value);
    assert(attached_arg(w1.skip(2)) == value);
    let names = seq![NameV::Short(c)];
    assert(Seq::<NameV>::empty().push(NameV::Short(c)) =~= names);
    assert(short_names(opts, w2, 2, names) == Ok::<(Seq<NameV>, Option<Seq<char>>), FailV>((names, None)));
    assert(short_names(opts, w2, 1, seq![]) == Ok::<(Seq<NameV>, Option<Seq<char>>), FailV>((names, None)));
    assert(short_names(opts, w1, 1, seq![]) == Ok::<(Seq<NameV>, Option<Seq<char>>), FailV>((names, Some(value))));
    let v2 = add_val(vals, id, OptvalV::Val(value));
    assert(take_values(opts, names, 1, None, false, rest, 0, v2) == Ok::<(Seq<Seq<OptvalV>>, nat), FailV>((v2, 0nat)));
    assert(take_values(opts, names, 1, None, false, r2, 1, v2) == Ok::<(Seq<Seq<OptvalV>>, nat), FailV>((v2, 1nat)));
    assert(take_values(opts, names, 0, Some(value), false, rest, 0, vals) == Ok::<(Seq<Seq<OptvalV>>, nat), FailV>((v2, 0nat)));
    assert(take_values(opts, names, 0, None, false, r2, 0, vals) == Ok::<(Seq<Seq<OptvalV>>, nat), FailV>((v2, 1nat)));
}

/// A short option that requires an argument takes it after `=` as it does from the
/// next word: `-o=value` reads as `-o value`.
pub proof fn law_short_argument_equals_or_space(
    opts: Seq<OptV>,
    style: ParsingStyle,
    c: char,
    value: Seq<char>,
    rest: Seq<Seq<char>>,
    vals: Seq<Seq<OptvalV>>,
    free: Seq<Seq<char>>,
)
    requires
        c != '-',
        find_opt_spec(opts, NameV::Short(c)) matches Some(id) && opts[id as int].hasarg
            == HasArg::Yes,
    ensures
        parse_words(opts, style, false, seq![seq!['-', c, '='] + value] + rest, vals, free)
            == parse_words(opts, style, false, seq![seq!['-', c], value] + rest, vals, free),
{
    let id = find_opt_spec(opts, NameV::Short(c))->0;
    let w1 = seq!['-', c, '='] + value;
    let w2 = seq!['-', c];
    let a1 = seq![w1] + rest;
    let a2 = seq![w2, value] + rest;
    assert(a1[0] == w1);
    assert(a1.drop_first() =~= rest);
    assert(a2[0] == w2);
    let r2 = seq![value] + rest;
    assert(a2.drop_first() =~= r2);
    assert(r2[0] == value);
    assert(r2.skip(1) =~= rest);
    assert(rest.skip(0) =~= rest);
    assert(w1[0] == '-' && w1[1] == c && w1[2] == '=' && w1.len() > 2);
    assert(w1 != seq!['-', '-']);
    assert(w2 != seq!['-', '-']);
    assert(w1.skip(2).skip(1) =~= value);
    assert(attached_arg(w1.skip(2)) == value);
    let names = seq![NameV::Short(c)];
    assert(Seq::<NameV>::empty().push(NameV::Short(c)) =~= names);
    assert(short_names(opts, w2, 2, names) == Ok::<(Seq<NameV>, Option<Seq<char>>), FailV>((names, None)));
    assert(short_names(opts, w2, 1, seq![]) == Ok::<(Seq<NameV>, Option<Seq<char>>), FailV>((names, None)));
    assert(short_names(opts, w1, 1, seq![]) == Ok::<(Seq<NameV>, Option<Seq<char>>), FailV>((names, Some(value))));
    let v2 = add_val(vals, id, OptvalV::Val(value));
    assert(take_values(opts, names, 1, None, false, rest, 0, v2) == Ok::<(Seq<Seq<OptvalV>>, nat), FailV>((v2, 0nat)));
    assert(take_values(opts, names, 1, None, false, r2, 1, v2) == Ok::<(Seq<Seq<OptvalV>>, nat), FailV>((v2, 1nat)));
    assert(take_values(opts, names, 0, Some(value), false, rest, 0, vals) == Ok::<(Seq<Seq<OptvalV>>, nat), FailV>((v2, 0nat)));
    assert(take_values(opts, names, 0, None, false, r2, 0, vals) == Ok::<(Seq<Seq<OptvalV>>, nat), FailV>((v2, 1nat)));
}

/// Short flags may be clustered: `-ab` reads as `-a -b`.
pub proof fn law_short_flags_cluster(
    opts: Seq<OptV>,
    style: ParsingStyle,
    a: char,
    b: char,
    rest: Seq<Seq<char>>,
    vals: Seq<Seq<OptvalV>>,
    free: Seq<Seq<char>>,
)
    requires
        a != '-',
        b != '-',
        find_opt_spec(opts, NameV::Short(a)) matches Some(ia) && opts[ia as int].hasarg
            == HasArg::No,
        find_opt_spec(opts, NameV::Short(b)) matches Some(ib) && opts[ib as int].hasarg
            == HasArg::No,
    ensures
        parse_words(opts, style, false, seq![seq!['-', a, b]] + rest, vals, free) == parse_words(
            opts,
            style,
            false,
            seq![seq!['-', a], seq!['-', b]] + rest,
            vals,
            free,
        ),
{
    let ia = find_opt_spec(opts, NameV::Short(a))->0;
    let ib = find_opt_spec(opts, NameV::Short(b))->0;
    let w = seq!['-', a, b];
    let wa = seq!['-', a];
    let wb = seq!['-', b];
    let a1 = seq![w] + rest;
    let a2 = seq![wa, wb] + rest;
    let r2 = seq![wb] + rest;
    assert(a1[0] == w);
    assert(a1.drop_first() =~= rest);
    assert(a2[0] == wa);
    assert(a2.drop_first() =~= r2);
    assert(r2[0] == wb);
    assert(r2.drop_first() =~= rest);
    assert(rest.skip(0) =~= rest);
    assert(r2.skip(0) =~= r2);
    assert(w != seq!['-', '-']);
    assert(wa != seq!['-', '-']);
    assert(wb != seq!['-', '-']);
    let na = seq![NameV::Short(a)];
    let nb = seq![NameV::Short(b)];
    let nab = seq![NameV::Short(a), NameV::Short(b)];
    assert(Seq::<NameV>::empty().push(NameV::Short(a)) =~= na);
    assert(Seq::<NameV>::empty().push(NameV::Short(b)) =~= nb);
    assert(na.push(NameV::Short(b)) =~= nab);
    assert(short_names(opts, w, 3, nab) == Ok::<(Seq<NameV>, Option<Seq<char>>), FailV>((nab, None)));
    assert(short_names(opts, w, 2, na) == Ok::<(Seq<NameV>, Option<Seq<char>>), FailV>((nab, None)));
    assert(short_names(opts, w, 1, seq![]) == Ok::<(Seq<NameV>, Option<Seq<char>>), FailV>((nab, None)));
    assert(short_names(opts, wa, 2, na) == Ok::<(Seq<NameV>, Option<Seq<char>>), FailV>((na, None)));
    assert(short_names(opts, wa, 1, seq![]) == Ok::<(Seq<NameV>, Option<Seq<char>>), FailV>((na, None)));
    assert(short_names(opts, wb, 2, nb) == Ok::<(Seq<NameV>, Option<Seq<char>>), FailV>((nb, None)));
    assert(short_names(opts, wb, 1, seq![]) == Ok::<(Seq<NameV>, Option<Seq<char>>), FailV>((nb, None)));
    let v1 = add_val(vals, ia, OptvalV::Given);
    let v2 = add_val(v1, ib, OptvalV::Given);
    assert(take_values(opts, nab, 2, None, false, rest, 0, v2) == Ok::<(Seq<Seq<OptvalV>>, nat), FailV>((v2, 0nat)));
    assert(take_values(opts, nab, 1, None, false, rest, 0, v1) == Ok::<(Seq<Seq<OptvalV>>, nat), FailV>((v2, 0nat)));
    assert(take_values(opts, nab, 0, None, false, rest, 0, vals) == Ok::<(Seq<Seq<OptvalV>>, nat), FailV>((v2, 0nat)));
    assert(take_values(opts, na, 1, None, false, r2, 0, v1) == Ok::<(Seq<Seq<OptvalV>>, nat), FailV>((v1, 0nat)));
    assert(take_values(opts, na, 0, None, false, r2, 0, vals) == Ok::<(Seq<Seq<OptvalV>>, nat), FailV>((v1, 0nat)));
    assert(take_values(opts, nb, 1, None, false, rest, 0, v2) == Ok::<(Seq<Seq<OptvalV>>, nat), FailV>((v2, 0nat)));
    assert(take_values(opts, nb, 0, None, false, rest, 0, v1) == Ok::<(Seq<Seq<OptvalV>>, nat), FailV>((v2, 0nat)));
    assert(parse_words(opts, style, false, r2, v1, free) == parse_words(opts, style, false, rest, v2, free));
}

pub proof fn lemma_index_by_alias_found(opts: Seq<OptV>, nm: NameV, from: nat, c: nat)
    requires
        from <= c < opts.len(),
        opts[c as int].aliases.contains(nm),
    ensures
        index_by_alias(opts, nm, from) is Some,
    decreases c - from,
{
    if opts[from as int].aliases.contains(nm) {
        lemma_index_of_name(opts, opts[from as int].name, 0);
    } else {
        lemma_index_by_alias_found(opts, nm, from + 1, c);
    }
}

proof fn lemma_group_names_found(opts: Seq<OptV>, g: crate::grammar::OptGroupV, i: int)
    requires
        0 <= i < opts.len(),
        opts[i] == crate::grammar::group_opt(g),
        g.well_named(),
    ensures
        g.long_name.len() > 0 ==> find_opt_spec(opts, name_from(g.long_name)) is Some,
        g.short_name.len() > 0 ==> find_opt_spec(opts, name_from(g.short_name)) is Some,
{
    lemma_byte_len_one(g.long_name);
    lemma_byte_len_one(g.short_name);
    if g.long_name.len() > 0 {
        lemma_index_of_name(opts, NameV::Long(g.long_name), 0);
    }
    if g.short_name.len() > 0 {
        let nm = NameV::Short(g.short_name[0]);
        lemma_index_of_name(opts, nm, 0);
        if g.long_name.len() > 0 {
            assert(opts[i].aliases == seq![nm]);
            assert(opts[i].aliases[0] == nm);
            lemma_index_by_alias_found(opts, nm, 0, i as nat);
        }
    }
}

/// After a successful parse, every option that was described can be queried by its
/// short name and by its long name.
pub proof fn law_described_options_defined(o: OptionsV, args: Seq<Seq<char>>, m: MatchesV)
    requires
        o.parseable(),
        parse_spec(o, args) == Ok::<MatchesV, FailV>(m),
    ensures
        forall|i: int|
            0 <= i < o.grps.len() ==> (o.grps[i].long_name.len() > 0 ==> m.defined(
                o.grps[i].long_name,
            )) && (o.grps[i].short_name.len() > 0 ==> m.defined(o.grps[i].short_name)),
{
    law_parse_respects_occur(o, args);
    assert forall|i: int| 0 <= i < o.grps.len() implies (o.grps[i].long_name.len() > 0
        ==> m.defined(o.grps[i].long_name)) && (o.grps[i].short_name.len() > 0 ==> m.defined(
        o.grps[i].short_name,
    )) by {
        assert(o.grps[i].well_named());
        lemma_group_names_found(m.opts, o.grps[i], i);
    }
}

/// A piece that is not empty and neither starts nor ends with whitespace.
pub open spec fn trimmed(p: Seq<char>) -> bool {
    p.len() > 0 && !is_white(p[0]) && !is_white(p[p.len() - 1])
}

pub open spec fn all_trimmed(pieces: Seq<Seq<char>>) -> bool {
    forall|j: int| 0 <= j < pieces.len() ==> trimmed(#[trigger] pieces[j])
}

/// What the splitter's state says of the text before character `k`: a word has begun at
/// `cs` and `ls`, the last character read is not whitespace inside a word, and a
/// finished word ends just after a non-whitespace character.
pub open spec fn trim_inv(ss: Seq<char>, st: SplitV, k: int) -> bool {
    &&& 0 <= k <= ss.len()
    &&& st.phase == Phase::Word ==> {
        &&& 0 <= st.cs < k && 0 <= st.ls < k
        &&& !is_white(ss[st.cs]) && !is_white(ss[st.ls]) && !is_white(ss[k - 1])
        &&& (st.ls == st.cs && st.last_start == st.slice_start) || (st.cs < st.le <= st.ls
            && !is_white(ss[st.le - 1]))
    }
    &&& st.phase == Phase::Gap ==> {
        &&& 0 <= st.cs < st.le <= k
        &&& !is_white(ss[st.cs]) && !is_white(ss[st.le - 1])
    }
}

proof fn lemma_step_trimmed(
    ss: Seq<char>,
    lim: int,
    st: SplitV,
    i: int,
    w: int,
    k: int,
    white: bool,
    k2: int,
)
    requires
        trim_inv(ss, st, k),
        (k < ss.len() && white == is_white(ss[k]) && k2 == k + 1) || (k == ss.len() && white && k2
            == k),
    ensures
        trim_inv(ss, split_step(lim, st, i, w, k, white).0, k2),
        split_step(lim, st, i, w, k, white).1 matches Some((a, b)) ==> 0 <= a < b <= ss.len()
            && trimmed(ss.subrange(a, b)),
{
}

proof fn lemma_emit_trimmed(ss: Seq<char>, pieces: Seq<Seq<char>>, p: Option<(int, int)>)
    requires
        all_trimmed(pieces),
        p matches Some((a, b)) ==> 0 <= a < b <= ss.len() && trimmed(ss.subrange(a, b)),
    ensures
        all_trimmed(emit(ss, pieces, p)),
{
    if let Some((a, b)) = p {
        let ps = pieces.push(ss.subrange(a, b));
        assert forall|j: int| 0 <= j < ps.len() implies trimmed(#[trigger] ps[j]) by {
            if j < pieces.len() {
                assert(ps[j] == pieces[j]);
            }
        }
    }
}

proof fn lemma_tail_trimmed(ss: Seq<char>, lim: int, i: int, st: SplitV, pieces: Seq<Seq<char>>)
    requires
        trim_inv(ss, st, ss.len() as int),
        all_trimmed(pieces),
    ensures
        all_trimmed(split_tail(ss, lim, i, st, pieces)),
    decreases tail_measure(lim, st, i),
{
    if st.phase != Phase::Leading {
        let n = ss.len() as int;
        lemma_step_trimmed(ss, lim, st, i, 1, n, true, n);
        let (st2, p) = split_step(lim, st, i, 1, n, true);
        lemma_emit_trimmed(ss, pieces, p);
        if st2.phase != Phase::Leading {
            lemma_tail_trimmed(ss, lim, i + 1, st2, emit(ss, pieces, p));
        }
    }
}

proof fn lemma_run_trimmed(
    ss: Seq<char>,
    lim: int,
    k: int,
    i: int,
    st: SplitV,
    pieces: Seq<Seq<char>>,
)
    requires
        trim_inv(ss, st, k),
        all_trimmed(pieces),
    ensures
        all_trimmed(split_run(ss, lim, k, i, st, pieces)),
    decreases ss.len() - k,
{
    if k >= ss.len() {
        lemma_tail_trimmed(ss, lim, i, st, pieces);
    } else {
        let white = is_white(ss[k]);
        let w = char_width(ss[k]) as int;
        lemma_step_trimmed(ss, lim, st, i, w, k, white, k + 1);
        let (st2, p) = split_step(lim, st, i, w, k, white);
        lemma_emit_trimmed(ss, pieces, p);
        lemma_run_trimmed(ss, lim, k + 1, i + char_width(ss[k]), st2, emit(ss, pieces, p));
    }
}

/// The pieces a text is split into have no leading or trailing whitespace, and none
/// is empty.
pub proof fn law_split_pieces_trimmed(ss: Seq<char>, lim: nat)
    ensures
        all_trimmed(split_within(ss, lim)),
{
    let total = crate::text::byte_len(ss);
    let lim2 = if lim >= total {
        total
    } else {
        lim
    };
    lemma_run_trimmed(ss, lim2 as int, 0, 0, split_start(), Seq::empty());
}

/// No whitespace among the characters `a..b` of `s`.
pub open spec fn no_white(s: Seq<char>, a: int, b: int) -> bool {
    forall|j: int| a <= j < b ==> !is_white(#[trigger] s[j])
}

/// A piece fits the limit, or is a single word longer than the limit.
pub open spec fn fits(p: Seq<char>, lim: nat) -> bool {
    byte_len(p) <= lim || no_white(p, 0, p.len() as int)
}

pub open spec fn all_fit(pieces: Seq<Seq<char>>, lim: nat) -> bool {
    forall|j: int| 0 <= j < pieces.len() ==> fits(#[trigger] pieces[j], lim)
}

/// Byte offset of character `k` of `s`.
pub open spec fn offset(s: Seq<char>, k: int) -> int {
    byte_len(s.take(k)) as int
}

/// The bytes of a slice are the difference of the offsets of its ends; offsets grow
/// strictly with the character index.
pub proof fn lemma_offsets(s: Seq<char>, a: int, b: int)
    requires
        0 <= a <= b <= s.len(),
    ensures
        byte_len(s.subrange(a, b)) == offset(s, b) - offset(s, a),
        a < b ==> offset(s, a) < offset(s, b),
        offset(s, a) <= offset(s, b),
{
    assert(s.take(b) =~= s.take(a) + s.subrange(a, b));
    lemma_byte_len_append(s.take(a), s.subrange(a, b));
    crate::text::lemma_byte_len_ge_len(s.subrange(a, b));
}

/// What the state says of how long the piece under way is, in bytes; `i` is where the
/// current character starts.
pub open spec fn fit_inv(ss: Seq<char>, lim: int, st: SplitV, k: int) -> bool {
    &&& 0 <= k <= ss.len()
    &&& 0 <= st.cs <= k && 0 <= st.ls <= k && 0 <= st.le <= k
    &&& st.slice_start == offset(ss, st.cs) && st.last_start == offset(ss, st.ls)
        && st.last_end == offset(ss, st.le)
    &&& st.phase == Phase::Word ==> {
        &&& st.cs <= st.ls < k
        &&& no_white(ss, st.ls, k)
        &&& st.ls == st.cs || (st.cs < st.le <= st.ls && offset(ss, k) - offset(ss, st.cs) <= lim)
    }
    &&& st.phase == Phase::Gap ==> st.cs < st.le <= k && offset(ss, st.le) - offset(ss, st.cs)
        <= lim
}

proof fn lemma_step_fits(
    ss: Seq<char>,
    lim: int,
    st: SplitV,
    i: int,
    w: int,
    k: int,
    white: bool,
    k2: int,
)
    requires
        lim >= 0,
        fit_inv(ss, lim, st, k),
        (k < ss.len() && white == is_white(ss[k]) && k2 == k + 1 && i == offset(ss, k) && w
            == char_width(ss[k])) || (k == ss.len() && white && k2 == k && w == 1 && i >= offset(
            ss,
            k,
        ) && (st.phase == Phase::Word ==> i == offset(ss, k))),
    ensures
        fit_inv(ss, lim, split_step(lim, st, i, w, k, white).0, k2),
        split_step(lim, st, i, w, k, white).1 matches Some((a, b)) ==> 0 <= a <= b <= ss.len() && (
        offset(ss, b) - offset(ss, a) <= lim || no_white(ss, a, b)),
{
    lemma_offsets(ss, st.cs, k);
    lemma_offsets(ss, st.ls, k);
    lemma_offsets(ss, st.le, k);
    if st.cs <= st.ls {
        lemma_offsets(ss, st.cs, st.ls);
    }
    if st.cs <= st.le {
        lemma_offsets(ss, st.cs, st.le);
    }
    if st.le <= st.ls {
        lemma_offsets(ss, st.le, st.ls);
    }
    if k < ss.len() {
        crate::text::lemma_byte_len_take_step(ss, k);
        lemma_offsets(ss, k, k + 1);
    }
}

proof fn lemma_emit_fits(ss: Seq<char>, lim: nat, pieces: Seq<Seq<char>>, p: Option<(int, int)>)
    requires
        all_fit(pieces, lim),
        p matches Some((a, b)) ==> 0 <= a <= b <= ss.len() && (offset(ss, b) - offset(ss, a)
            <= lim || no_white(ss, a, b)),
    ensures
        all_fit(emit(ss, pieces, p), lim),
{
    if let Some((a, b)) = p {
        let piece = ss.subrange(a, b);
        lemma_offsets(ss, a, b);
        if !(offset(ss, b) - offset(ss, a) <= lim) {
            assert forall|j: int| 0 <= j < piece.len() implies !is_white(#[trigger] piece[j]) by {
                assert(piece[j] == ss[a + j]);
            }
        }
        let ps = pieces.push(piece);
        assert forall|j: int| 0 <= j < ps.len() implies fits(#[trigger] ps[j], lim) by {
            if j < pieces.len() {
                assert(ps[j] == pieces[j]);
            }
        }
    }
}

proof fn lemma_tail_fits(ss: Seq<char>, lim: nat, i: int, st: SplitV, pieces: Seq<Seq<char>>)
    requires
        fit_inv(ss, lim as int, st, ss.len() as int),
        i >= offset(ss, ss.len() as int),
        st.phase == Phase::Word ==> i == offset(ss, ss.len() as int),
        all_fit(pieces, lim),
    ensures
        all_fit(split_tail(ss, lim as int, i, st, pieces), lim),
    decreases tail_measure(lim as int, st, i),
{
    if st.phase != Phase::Leading {
        let n = ss.len() as int;
        lemma_step_fits(ss, lim as int, st, i, 1, n, true, n);
        let (st2, p) = split_step(lim as int, st, i, 1, n, true);
        lemma_emit_fits(ss, lim, pieces, p);
        if st2.phase != Phase::Leading {
            lemma_tail_fits(ss, lim, i + 1, st2, emit(ss, pieces, p));
        }
    }
}

proof fn lemma_run_fits(
    ss: Seq<char>,
    lim: nat,
    k: int,
    i: int,
    st: SplitV,
    pieces: Seq<Seq<char>>,
)
    requires
        fit_inv(ss, lim as int, st, k),
        i == offset(ss, k),
        all_fit(pieces, lim),
    ensures
        all_fit(split_run(ss, lim as int, k, i, st, pieces), lim),
    decreases ss.len() - k,
{
    if k >= ss.len() {
        lemma_tail_fits(ss, lim, i, st, pieces);
    } else {
        let white = is_white(ss[k]);
        let w = char_width(ss[k]) as int;
        lemma_step_fits(ss, lim as int, st, i, w, k, white, k + 1);
        let (st2, p) = split_step(lim as int, st, i, w, k, white);
        lemma_emit_fits(ss, lim, pieces, p);
        crate::text::lemma_byte_len_take_step(ss, k);
        lemma_run_fits(ss, lim, k + 1, i + w, st2, emit(ss, pieces, p));
    }
}

/// Each piece is at most `lim` bytes long, unless it is a single word that is longer by
/// itself.
pub proof fn law_split_pieces_fit(ss: Seq<char>, lim: nat)
    ensures
        forall|j: int|
            0 <= j < split_within(ss, lim).len() ==> fits(#[trigger] split_within(ss, lim)[j], lim),
{
    let total = byte_len(ss);
    let lim2 = if lim >= total {
        total
    } else {
        lim
    };
    assert(ss.take(0) =~= Seq::<char>::empty());
    lemma_run_fits(ss, lim2, 0, 0, split_start(), Seq::empty());
    let ps = split_within(ss, lim);
    assert forall|j: int| 0 <= j < ps.len() implies fits(#[trigger] ps[j], lim) by {
        assert(fits(ps[j], lim2));
    }
}

/// No two options bear the same name.
pub open spec fn distinct_names(opts: Seq<OptV>) -> bool {
    forall|i: int, j: int|
        0 <= i < opts.len() && 0 <= j < opts.len() && i != j ==> opts[i].name != opts[j].name
}

proof fn lemma_index_of_name_distinct(opts: Seq<OptV>, i: int)
    requires
        distinct_names(opts),
        0 <= i < opts.len(),
    ensures
        index_of_name(opts, opts[i].name, 0) == Some(i as nat),
{
    lemma_index_of_name(opts, opts[i].name, 0);
}

proof fn lemma_index_by_alias_distinct(opts: Seq<OptV>, nm: NameV, from: nat)
    requires
        distinct_names(opts),
    ensures
        index_by_alias(opts, nm, from) is None <==> forall|j: int|
            from <= j < opts.len() ==> !(#[trigger] opts[j].aliases.contains(nm)),
        index_by_alias(opts, nm, from) matches Some(i) ==> from <= i < opts.len()
            && opts[i as int].aliases.contains(nm),
    decreases opts.len() - from,
{
    if from < opts.len() {
        if opts[from as int].aliases.contains(nm) {
            lemma_index_of_name_distinct(opts, from as int);
        } else {
            lemma_index_by_alias_distinct(opts, nm, from + 1);
        }
    }
}

/// When no two options bear the same name, a name selects nothing exactly when no
/// option bears it or lists it as an alias; otherwise it selects the option that bears
/// it, or, when none does, an option that lists it as an alias.
pub proof fn law_find_opt_resolves(opts: Seq<OptV>, nm: NameV)
    requires
        distinct_names(opts),
    ensures
        find_opt_spec(opts, nm) is None <==> forall|j: int|
            #![trigger opts[j]]
            0 <= j < opts.len() ==> opts[j].name != nm && !opts[j].aliases.contains(nm),
        find_opt_spec(opts, nm) matches Some(i) ==> i < opts.len() && (opts[i as int].name == nm
            || ((forall|j: int| 0 <= j < opts.len() ==> #[trigger] opts[j].name != nm)
            && opts[i as int].aliases.contains(nm))),
{
    lemma_index_of_name(opts, nm, 0);
    lemma_index_by_alias_distinct(opts, nm, 0);
}

/// No other described group bears the short name or the long name of group `i`.
pub open spec fn group_names_unique(o: OptionsV, i: int) -> bool {
    forall|j: int|
        #![trigger o.grps[j]]
        0 <= j < o.grps.len() && j != i ==> (o.grps[i].short_name.len() > 0
            ==> o.grps[j].short_name != o.grps[i].short_name) && (o.grps[i].long_name.len() > 0
            ==> o.grps[j].long_name != o.grps[i].long_name)
}

proof fn lemma_short_name_single(g: crate::grammar::OptGroupV)
    requires
        g.well_named(),
        g.short_name.len() > 0,
    ensures
        g.short_name =~= seq![g.short_name[0]],
        name_from(g.short_name) == NameV::Short(g.short_name[0]),
{
    lemma_byte_len_one(g.short_name);
}

proof fn lemma_index_by_alias_only(opts: Seq<OptV>, nm: NameV, from: nat, i: int)
    requires
        from <= i < opts.len(),
        opts[i].aliases.contains(nm),
        forall|c: int| 0 <= c < opts.len() && c != i ==> !(#[trigger] opts[c].aliases.contains(nm)),
    ensures
        index_by_alias(opts, nm, from) == index_of_name(opts, opts[i].name, 0),
    decreases i - from,
{
    if from < i {
        lemma_index_by_alias_only(opts, nm, from + 1, i);
    }
}

/// Which option group `x`'s option is named for.
proof fn lemma_main_name(o: OptionsV, x: int)
    requires
        o.parseable(),
        0 <= x < o.grps.len(),
    ensures
        o.opts()[x].name is Long ==> o.grps[x].long_name.len() > 0 && o.opts()[x].name
            == NameV::Long(o.grps[x].long_name),
        o.opts()[x].name is Short ==> o.grps[x].long_name.len() == 0 && o.grps[x].short_name
            =~= seq![o.opts()[x].name->Short_0],
        o.opts()[x].aliases.len() > 0 ==> o.grps[x].short_name =~= seq![
            o.opts()[x].aliases[0]->Short_0,
        ] && o.opts()[x].aliases =~= seq![o.opts()[x].aliases[0]],
{
    let g = o.grps[x];
    assert(g.well_named());
    if g.short_name.len() > 0 {
        lemma_short_name_single(g);
    }
}

proof fn lemma_group_selects_itself(o: OptionsV, i: int)
    requires
        o.parseable(),
        0 <= i < o.grps.len(),
        group_names_unique(o, i),
    ensures
        o.grps[i].long_name.len() > 0 ==> find_opt_spec(o.opts(), name_from(o.grps[i].long_name))
            == Some(i as nat),
        o.grps[i].short_name.len() > 0 ==> find_opt_spec(
            o.opts(),
            name_from(o.grps[i].short_name),
        ) == Some(i as nat),
{
    let opts = o.opts();
    let g = o.grps[i];
    assert(g.well_named());
    lemma_byte_len_one(g.long_name);
    lemma_main_name(o, i);
    if g.long_name.len() > 0 {
        let nm = NameV::Long(g.long_name);
        lemma_index_of_name(opts, nm, 0);
        let x = index_of_name(opts, nm, 0)->0 as int;
        lemma_main_name(o, x);
        assert(o.grps[x].long_name == g.long_name);
    }
    if g.short_name.len() > 0 {
        lemma_short_name_single(g);
        let nm = NameV::Short(g.short_name[0]);
        lemma_index_of_name(opts, nm, 0);
        if g.long_name.len() == 0 {
            let x = index_of_name(opts, nm, 0)->0 as int;
            lemma_main_name(o, x);
            assert(o.grps[x].short_name =~= g.short_name);
        } else {
            assert forall|j: int| 0 <= j < opts.len() implies #[trigger] opts[j].name != nm by {
                lemma_main_name(o, j);
                if opts[j].name == nm {
                    assert(o.grps[j].short_name =~= g.short_name);
                }
            }
            assert(opts[i].aliases == seq![nm]);
            assert(opts[i].aliases[0] == nm);
            assert forall|c: int| 0 <= c < opts.len() && c != i implies !(
            #[trigger] opts[c].aliases.contains(nm)) by {
                lemma_main_name(o, c);
                if opts[c].aliases.contains(nm) {
                    assert(opts[c].aliases[0] == nm);
                    assert(o.grps[c].short_name =~= g.short_name);
                }
            }
            lemma_index_by_alias_only(opts, nm, 0, i);
            let nl = NameV::Long(g.long_name);
            lemma_index_of_name(opts, nl, 0);
            let x = index_of_name(opts, nl, 0)->0 as int;
            lemma_main_name(o, x);
            assert(o.grps[x].long_name == g.long_name);
        }
    }
}

/// A group whose short and long names no other group bears is selected by either of
/// them: after a successful parse both name the same values, so the option is present,
/// and counted, alike under both names; a required option is counted at least once and
/// a single-use option at most once.
pub proof fn law_group_names_select_group(o: OptionsV, args: Seq<Seq<char>>, m: MatchesV)
    requires
        o.parseable(),
        parse_spec(o, args) == Ok::<MatchesV, FailV>(m),
    ensures
        forall|i: int, nm: Seq<char>|
            #![trigger o.grps[i], m.lookup(nm)]
            0 <= i < o.grps.len() && group_names_unique(o, i) && nm.len() > 0 && (nm
                == o.grps[i].long_name || nm == o.grps[i].short_name) ==> {
                &&& m.lookup(nm) == Some(i as nat)
                &&& m.values(nm) == m.vals[i]
                &&& m.count(nm) == m.vals[i].len()
                &&& m.present(nm) == (m.count(nm) > 0)
                &&& o.grps[i].occur == Occur::Req ==> m.count(nm) >= 1
                &&& o.grps[i].occur != Occur::Multi ==> m.count(nm) <= 1
            },
{
    law_parse_respects_occur(o, args);
    assert forall|i: int, nm: Seq<char>|
        #![trigger o.grps[i], m.lookup(nm)]
        0 <= i < o.grps.len() && group_names_unique(o, i) && nm.len() > 0 && (nm
            == o.grps[i].long_name || nm == o.grps[i].short_name) implies {
        &&& m.lookup(nm) == Some(i as nat)
        &&& m.values(nm) == m.vals[i]
        &&& m.count(nm) == m.vals[i].len()
        &&& m.present(nm) == (m.count(nm) > 0)
        &&& o.grps[i].occur == Occur::Req ==> m.count(nm) >= 1
        &&& o.grps[i].occur != Occur::Multi ==> m.count(nm) <= 1
    } by {
        lemma_group_selects_itself(o, i);
        assert(m.opts[i].occur == o.grps[i].occur);
    }
}

/// Each recorded value agrees with its option: an option that requires an argument
/// holds only values with one, an option without argument only bare occurrences.
pub open spec fn values_agree(opts: Seq<OptV>, vals: Seq<Seq<OptvalV>>) -> bool {
    &&& vals.len() == opts.len()
    &&& forall|i: int, j: int|
        #![trigger vals[i][j]]
        0 <= i < opts.len() && 0 <= j < vals[i].len() ==> (opts[i].hasarg == HasArg::Yes
            ==> vals[i][j] is Val) && (opts[i].hasarg == HasArg::No ==> vals[i][j] is Given)
}

proof fn lemma_add_val_agrees(opts: Seq<OptV>, vals: Seq<Seq<OptvalV>>, id: nat, v: OptvalV)
    requires
        values_agree(opts, vals),
        id < opts.len(),
        opts[id as int].hasarg == HasArg::Yes ==> v is Val,
        opts[id as int].hasarg == HasArg::No ==> v is Given,
    ensures
        values_agree(opts, add_val(vals, id, v)),
{
    let nv = add_val(vals, id, v);
    assert forall|i: int, j: int|
        #![trigger nv[i][j]]
        0 <= i < opts.len() && 0 <= j < nv[i].len() implies (opts[i].hasarg == HasArg::Yes
            ==> nv[i][j] is Val) && (opts[i].hasarg == HasArg::No ==> nv[i][j] is Given) by {
        if i == id {
            if j < vals[i].len() {
                assert(nv[i][j] == vals[i][j]);
            }
        } else {
            assert(nv[i] == vals[i]);
        }
    }
}

proof fn lemma_take_values_agree(
    opts: Seq<OptV>,
    names: Seq<NameV>,
    pos: nat,
    iarg: Option<Seq<char>>,
    was_long: bool,
    rest: Seq<Seq<char>>,
    used: nat,
    vals: Seq<Seq<OptvalV>>,
)
    requires
        values_agree(opts, vals),
    ensures
        take_values(opts, names, pos, iarg, was_long, rest, used, vals) matches Ok((v, u))
            ==> values_agree(opts, v),
    decreases names.len() - pos,
{
    if pos < names.len() {
        let nm = names[pos as int];
        crate::names::lemma_find_opt_bounds(opts, nm);
        match find_opt_spec(opts, nm) {
            None => {},
            Some(id) => {
                match opts[id as int].hasarg {
                    HasArg::No => {
                        let v1 = add_val(vals, id, OptvalV::Given);
                        lemma_add_val_agrees(opts, vals, id, OptvalV::Given);
                        lemma_take_values_agree(opts, names, pos + 1, iarg, was_long, rest, used, v1);
                    },
                    HasArg::Maybe => {
                        let v1 = add_val(vals, id, OptvalV::Given);
                        lemma_add_val_agrees(opts, vals, id, OptvalV::Given);
                        lemma_take_values_agree(opts, names, pos + 1, None, was_long, rest, used, v1);
                        if let Some(a) = iarg {
                            lemma_add_val_agrees(opts, vals, id, OptvalV::Val(a));
                            lemma_take_values_agree(opts, names, pos + 1, None, was_long, rest, used, add_val(vals, id, OptvalV::Val(a)));
                        }
                        if used < rest.len() {
                            let x = OptvalV::Val(rest[used as int]);
                            lemma_add_val_agrees(opts, vals, id, x);
                            lemma_take_values_agree(opts, names, pos + 1, None, was_long, rest, used + 1, add_val(vals, id, x));
                        }
                    },
                    HasArg::Yes => {
                        if let Some(a) = iarg {
                            lemma_add_val_agrees(opts, vals, id, OptvalV::Val(a));
                            lemma_take_values_agree(opts, names, pos + 1, None, was_long, rest, used, add_val(vals, id, OptvalV::Val(a)));
                        }
                        if used < rest.len() {
                            let x = OptvalV::Val(rest[used as int]);
                            lemma_add_val_agrees(opts, vals, id, x);
                            lemma_take_values_agree(opts, names, pos + 1, None, was_long, rest, used + 1, add_val(vals, id, x));
                        }
                    },
                }
            },
        }
    }
}

proof fn lemma_parse_words_agree(
    opts: Seq<OptV>,
    style: ParsingStyle,
    long_only: bool,
    args: Seq<Seq<char>>,
    vals: Seq<Seq<OptvalV>>,
    free: Seq<Seq<char>>,
)
    requires
        values_agree(opts, vals),
    ensures
        parse_words(opts, style, long_only, args, vals, free) matches Ok((v, f)) ==> values_agree(
            opts,
            v,
        ),
    decreases args.len(),
{
    if args.len() > 0 {
        let cur = args[0];
        let rest = args.drop_first();
        if is_arg(cur) {
            match option_names(opts, long_only, cur) {
                Ok((names, iarg, was_long)) => {
                    lemma_take_values_agree(opts, names, 0, iarg, was_long, rest, 0, vals);
                    lemma_take_values_used(opts, names, 0, iarg, was_long, rest, 0, vals);
                    match take_values(opts, names, 0, iarg, was_long, rest, 0, vals) {
                        Ok((v2, used)) => {
                            lemma_parse_words_agree(
                                opts,
                                style,
                                long_only,
                                rest.skip(used as int),
                                v2,
                                free,
                            );
                        },
                        Err(_) => {},
                    }
                },
                Err(_) => {},
            }
        } else {
            lemma_parse_words_agree(opts, style, long_only, rest, vals, free.push(cur));
        }
    }
}

proof fn lemma_arg_strings_all_val(v: Seq<OptvalV>)
    requires
        forall|j: int| 0 <= j < v.len() ==> (#[trigger] v[j]) is Val,
    ensures
        arg_strings(v).len() == v.len(),
        forall|j: int| 0 <= j < v.len() ==> #[trigger] arg_strings(v)[j] == v[j]->Val_0,
    decreases v.len(),
{
    if v.len() > 0 {
        let d = v.drop_last();
        assert forall|j: int| 0 <= j < d.len() implies (#[trigger] d[j]) is Val by {
            assert(d[j] == v[j]);
        }
        lemma_arg_strings_all_val(d);
        assert(v.last() == v[v.len() - 1]);
    }
}

/// After a successful parse, an option that requires an argument recorded an argument
/// with each occurrence, and an option without argument none: for such an option,
/// `opt_strs` lists one argument per occurrence, in order, and `opt_str` is the first.
pub proof fn law_argument_values(o: OptionsV, args: Seq<Seq<char>>, m: MatchesV, nm: Seq<char>)
    requires
        parse_spec(o, args) == Ok::<MatchesV, FailV>(m),
    ensures
        values_agree(m.opts, m.vals),
        m.defined(nm) && m.opts[m.lookup(nm)->0 as int].hasarg == HasArg::Yes ==> {
            &&& arg_strings(m.values(nm)).len() == m.count(nm)
            &&& forall|j: int|
                0 <= j < m.count(nm) ==> #[trigger] arg_strings(m.values(nm))[j] == m.values(
                    nm,
                )[j]->Val_0
            &&& m.present(nm) ==> m.first_arg(nm) == Some(arg_strings(m.values(nm))[0])
            &&& !m.present(nm) ==> m.first_arg(nm) is None
        },
{
    let opts = o.opts();
    let v0 = no_vals(opts.len());
    assert(values_agree(opts, v0));
    lemma_parse_words_agree(opts, o.parsing_style, o.long_only, args, v0, seq![]);
    if m.defined(nm) {
        crate::names::lemma_find_opt_bounds(m.opts, name_from(nm));
        let i = m.lookup(nm)->0 as int;
        if m.opts[i].hasarg == HasArg::Yes {
            let v = m.values(nm);
            assert forall|j: int| 0 <= j < v.len() implies (#[trigger] v[j]) is Val by {
                assert(m.vals[i][j] == v[j]);
            }
            lemma_arg_strings_all_val(v);
        }
    }
}

/// Only whitespace among the characters `a..b` of `s`.
pub open spec fn white_between(s: Seq<char>, a: int, b: int) -> bool {
    forall|j: int| a <= j < b ==> is_white(#[trigger] s[j])
}

/// Where the last piece ends; the start of the text when there is none.
pub open spec fn last_end(ranges: Seq<(int, int)>) -> int {
    if ranges.len() == 0 {
        0
    } else {
        ranges.last().1
    }
}

/// The pieces are the slices `ranges` of `ss`, in increasing order, with nothing but
/// whitespace (and at least one character) between two of them and before the first.
pub open spec fn ranges_ok(ss: Seq<char>, ranges: Seq<(int, int)>, pieces: Seq<Seq<char>>) -> bool {
    &&& pieces.len() == ranges.len()
    &&& forall|k: int|
        0 <= k < ranges.len() ==> 0 <= (#[trigger] ranges[k]).0 < ranges[k].1 <= ss.len()
            && pieces[k] == ss.subrange(ranges[k].0, ranges[k].1)
    &&& forall|k: int|
        0 <= k < ranges.len() - 1 ==> (#[trigger] ranges[k]).1 < ranges[k + 1].0 && white_between(
            ss,
            ranges[k].1,
            ranges[k + 1].0,
        )
    &&& ranges.len() > 0 ==> white_between(ss, 0, ranges[0].0)
}

pub open spec fn emit_range(ranges: Seq<(int, int)>, p: Option<(int, int)>) -> Seq<(int, int)> {
    match p {
        Some(r) => ranges.push(r),
        None => ranges,
    }
}

/// What lies between the last piece and the position `k` of the splitter.
pub open spec fn cover_inv(ss: Seq<char>, st: SplitV, k: int, ranges: Seq<(int, int)>) -> bool {
    let e = last_end(ranges);
    &&& 0 <= e <= k
    &&& st.phase == Phase::Leading ==> white_between(ss, e, k) && (ranges.len() > 0 ==> e < k
        || k == ss.len())
    &&& st.phase != Phase::Leading ==> white_between(ss, e, st.cs) && (ranges.len() > 0 ==> e
        < st.cs)
    &&& st.phase == Phase::Word && !(st.ls == st.cs && st.last_start == st.slice_start)
        ==> white_between(ss, st.le, st.ls) && st.le < st.ls
    &&& st.phase == Phase::Gap ==> white_between(ss, st.le, k) && (st.le < k || k == ss.len())
}

proof fn lemma_push_range(
    ss: Seq<char>,
    ranges: Seq<(int, int)>,
    pieces: Seq<Seq<char>>,
    a: int,
    b: int,
)
    requires
        ranges_ok(ss, ranges, pieces),
        0 <= a < b <= ss.len(),
        white_between(ss, last_end(ranges), a),
        ranges.len() > 0 ==> last_end(ranges) < a,
    ensures
        ranges_ok(ss, ranges.push((a, b)), pieces.push(ss.subrange(a, b))),
        last_end(ranges.push((a, b))) == b,
{
    let r2 = ranges.push((a, b));
    let p2 = pieces.push(ss.subrange(a, b));
    assert forall|q: int| 0 <= q < r2.len() implies 0 <= (#[trigger] r2[q]).0 < r2[q].1
        <= ss.len() && p2[q] == ss.subrange(r2[q].0, r2[q].1) by {
        if q < ranges.len() {
            assert(r2[q] == ranges[q]);
            assert(p2[q] == pieces[q]);
        }
    }
    assert forall|q: int| 0 <= q < r2.len() - 1 implies (#[trigger] r2[q]).1 < r2[q + 1].0
        && white_between(ss, r2[q].1, r2[q + 1].0) by {
        assert(r2[q] == ranges[q]);
        if q + 1 < ranges.len() {
            assert(r2[q + 1] == ranges[q + 1]);
        } else {
            assert(ranges.last() == ranges[q]);
        }
    }
    if ranges.len() > 0 {
        assert(r2[0] == ranges[0]);
    }
}

#[verifier::spinoff_prover]
proof fn lemma_step_cover(
    ss: Seq<char>,
    lim: int,
    st: SplitV,
    i: int,
    w: int,
    k: int,
    white: bool,
    k2: int,
    ranges: Seq<(int, int)>,
    pieces: Seq<Seq<char>>,
)
    requires
        trim_inv(ss, st, k),
        cover_inv(ss, st, k, ranges),
        ranges_ok(ss, ranges, pieces),
        (k < ss.len() && white == is_white(ss[k]) && k2 == k + 1) || (k == ss.len() && white && k2
            == k),
    ensures
        ranges_ok(
            ss,
            emit_range(ranges, split_step(lim, st, i, w, k, white).1),
            emit(ss, pieces, split_step(lim, st, i, w, k, white).1),
        ),
        cover_inv(
            ss,
            split_step(lim, st, i, w, k, white).0,
            k2,
            emit_range(ranges, split_step(lim, st, i, w, k, white).1),
        ),
{
    lemma_step_trimmed(ss, lim, st, i, w, k, white, k2);
    let (st2, p) = split_step(lim, st, i, w, k, white);
    if let Some((a, b)) = p {
        assert(a == st.cs);
        lemma_push_range(ss, ranges, pieces, a, b);
    }
    let r2 = emit_range(ranges, p);
    match st.phase {
        Phase::Leading => {
            assert(cover_inv(ss, st2, k2, r2));
        },
        Phase::Word => {
            if white {
                assert(cover_inv(ss, st2, k2, r2));
            } else {
                assert(cover_inv(ss, st2, k2, r2));
            }
        },
        Phase::Gap => {
            if white {
                assert(cover_inv(ss, st2, k2, r2));
            } else {
                assert(cover_inv(ss, st2, k2, r2));
            }
        },
    }
}

/// The end of the word that starts at or runs through position `j`.
pub open spec fn first_word_end(s: Seq<char>, j: int) -> int
    decreases s.len() - j,
{
    if j < 0 || j >= s.len() || is_white(s[j]) {
        j
    } else {
        first_word_end(s, j + 1)
    }
}

proof fn lemma_first_word_end(s: Seq<char>, a: int, b: int)
    requires
        0 <= a <= b <= s.len(),
        no_white(s, a, b),
    ensures
        b <= first_word_end(s, a) <= s.len(),
    decreases s.len() - a,
{
    if a < s.len() && !is_white(s[a]) {
        if a < b {
            lemma_first_word_end(s, a + 1, b);
        } else {
            lemma_first_word_end(s, a + 1, a + 1);
        }
    }
}

/// Pieces are filled greedily: the first word of each piece would not have fitted
/// within `lim` bytes at the end of the piece before.
pub open spec fn greedy(ss: Seq<char>, lim: int, ranges: Seq<(int, int)>) -> bool {
    forall|q: int|
        0 <= q < ranges.len() - 1 ==> offset(ss, first_word_end(ss, (#[trigger] ranges[q + 1]).0))
            - offset(ss, ranges[q].0) > lim
}

/// After the last piece, a position `t` that the next piece's first word reaches, and
/// that is too far for the last piece.
pub open spec fn greedy_inv(
    ss: Seq<char>,
    lim: int,
    st: SplitV,
    k: int,
    ranges: Seq<(int, int)>,
    t: int,
) -> bool {
    ranges.len() > 0 ==> ((st.phase == Phase::Leading && k == ss.len()) || (0 <= t <= ss.len()
        && offset(ss, t) - offset(ss, ranges.last().0) > lim && (st.phase == Phase::Leading
        ==> t <= k) && (st.phase != Phase::Leading ==> t <= first_word_end(ss, st.cs))))
}

proof fn lemma_step_greedy(
    ss: Seq<char>,
    lim: int,
    st: SplitV,
    i: int,
    w: int,
    k: int,
    white: bool,
    k2: int,
    ranges: Seq<(int, int)>,
    t: int,
) -> (t2: int)
    requires
        lim >= 0,
        trim_inv(ss, st, k),
        fit_inv(ss, lim, st, k),
        greedy_inv(ss, lim, st, k, ranges, t),
        greedy(ss, lim, ranges),
        forall|q: int| 0 <= q < ranges.len() ==> 0 <= (#[trigger] ranges[q]).0 <= ss.len(),
        (k < ss.len() && white == is_white(ss[k]) && k2 == k + 1 && i == offset(ss, k) && w
            == char_width(ss[k])) || (k == ss.len() && white && k2 == k && w == 1 && i >= offset(
            ss,
            k,
        ) && (st.phase == Phase::Word ==> i == offset(ss, k))),
    ensures
        greedy(ss, lim, emit_range(ranges, split_step(lim, st, i, w, k, white).1)),
        greedy_inv(
            ss,
            lim,
            split_step(lim, st, i, w, k, white).0,
            k2,
            emit_range(ranges, split_step(lim, st, i, w, k, white).1),
            t2,
        ),
{
    lemma_step_fits(ss, lim, st, i, w, k, white, k2);
    let (st2, p) = split_step(lim, st, i, w, k, white);
    if st.phase != Phase::Leading {
        lemma_first_word_end(ss, st.cs, st.cs);
    }
    if k < ss.len() {
        crate::text::lemma_byte_len_take_step(ss, k);
        lemma_offsets(ss, st.cs, k + 1);
    }
    if st.phase == Phase::Word {
        lemma_first_word_end(ss, st.ls, k);
        if !white && k < ss.len() {
            lemma_first_word_end(ss, st.ls, k + 1);
        }
    }
    if !white && k < ss.len() {
        lemma_first_word_end(ss, k, k + 1);
    }
    match p {
        Some((a, b)) => {
            assert(a == st.cs);
            if ranges.len() > 0 {
                let fe = first_word_end(ss, st.cs);
                lemma_offsets(ss, t, fe);
            }
            let r2 = ranges.push((a, b));
            assert forall|q: int| 0 <= q < r2.len() - 1 implies offset(
                ss,
                first_word_end(ss, (#[trigger] r2[q + 1]).0),
            ) - offset(ss, r2[q].0) > lim by {
                assert(r2[q] == ranges[q]);
                if q + 1 < ranges.len() {
                    assert(r2[q + 1] == ranges[q + 1]);
                } else {
                    assert(ranges.last() == ranges[q]);
                }
            }
            k + 1
        },
        None => t,
    }
}

proof fn lemma_tail_cover(
    ss: Seq<char>,
    lim: int,
    i: int,
    st: SplitV,
    ranges: Seq<(int, int)>,
    pieces: Seq<Seq<char>>,
    t: int,
) -> (r: Seq<(int, int)>)
    requires
        lim >= 0,
        trim_inv(ss, st, ss.len() as int),
        fit_inv(ss, lim, st, ss.len() as int),
        cover_inv(ss, st, ss.len() as int, ranges),
        ranges_ok(ss, ranges, pieces),
        greedy_inv(ss, lim, st, ss.len() as int, ranges, t),
        greedy(ss, lim, ranges),
        i >= offset(ss, ss.len() as int),
        st.phase == Phase::Word ==> i == offset(ss, ss.len() as int),
    ensures
        ranges_ok(ss, r, split_tail(ss, lim, i, st, pieces)),
        white_between(ss, last_end(r), ss.len() as int),
        greedy(ss, lim, r),
    decreases tail_measure(lim, st, i),
{
    let n = ss.len() as int;
    if st.phase == Phase::Leading {
        ranges
    } else {
        lemma_step_cover(ss, lim, st, i, 1, n, true, n, ranges, pieces);
        let t2 = lemma_step_greedy(ss, lim, st, i, 1, n, true, n, ranges, t);
        lemma_step_fits(ss, lim, st, i, 1, n, true, n);
        lemma_step_trimmed(ss, lim, st, i, 1, n, true, n);
        let (st2, p) = split_step(lim, st, i, 1, n, true);
        let r2 = emit_range(ranges, p);
        if st2.phase == Phase::Leading {
            r2
        } else {
            lemma_tail_cover(ss, lim, i + 1, st2, r2, emit(ss, pieces, p), t2)
        }
    }
}

proof fn lemma_run_cover(
    ss: Seq<char>,
    lim: int,
    k: int,
    i: int,
    st: SplitV,
    ranges: Seq<(int, int)>,
    pieces: Seq<Seq<char>>,
    t: int,
) -> (r: Seq<(int, int)>)
    requires
        lim >= 0,
        trim_inv(ss, st, k),
        fit_inv(ss, lim, st, k),
        cover_inv(ss, st, k, ranges),
        ranges_ok(ss, ranges, pieces),
        greedy_inv(ss, lim, st, k, ranges, t),
        greedy(ss, lim, ranges),
        i == offset(ss, k),
    ensures
        ranges_ok(ss, r, split_run(ss, lim, k, i, st, pieces)),
        white_between(ss, last_end(r), ss.len() as int),
        greedy(ss, lim, r),
    decreases ss.len() - k,
{
    if k >= ss.len() {
        lemma_tail_cover(ss, lim, i, st, ranges, pieces, t)
    } else {
        let white = is_white(ss[k]);
        let w = char_width(ss[k]) as int;
        lemma_step_cover(ss, lim, st, i, w, k, white, k + 1, ranges, pieces);
        let t2 = lemma_step_greedy(ss, lim, st, i, w, k, white, k + 1, ranges, t);
        lemma_step_trimmed(ss, lim, st, i, w, k, white, k + 1);
        lemma_step_fits(ss, lim, st, i, w, k, white, k + 1);
        crate::text::lemma_byte_len_take_step(ss, k);
        let (st2, p) = split_step(lim, st, i, w, k, white);
        lemma_run_cover(
            ss,
            lim,
            k + 1,
            i + w,
            st2,
            emit_range(ranges, p),
            emit(ss, pieces, p),
            t2,
        )
    }
}

/// The pieces are slices of the text, in order and without overlap, separated by
/// whitespace; the text holds nothing but whitespace before the first piece, between two
/// of them and after the last. With the pieces trimmed, the pieces and the whitespace
/// between them make up the text without its outer whitespace, and no word is lost.
/// There are no pieces exactly when the text is all whitespace. Pieces are filled
/// greedily: the first word of a piece, added to the piece before, would have taken it
/// beyond `lim` bytes.
pub proof fn law_split_pieces_cover(ss: Seq<char>, lim: nat) -> (ranges: Seq<(int, int)>)
    ensures
        ranges_ok(ss, ranges, split_within(ss, lim)),
        white_between(ss, last_end(ranges), ss.len() as int),
        split_within(ss, lim).len() == 0 <==> white_between(ss, 0, ss.len() as int),
        greedy(ss, lim as int, ranges),
{
    let total = byte_len(ss);
    let lim2 = if lim >= total {
        total
    } else {
        lim
    };
    assert(ss.take(0) =~= Seq::<char>::empty());
    let r = lemma_run_cover(ss, lim2 as int, 0, 0, split_start(), Seq::empty(), Seq::empty(), 0);
    law_split_pieces_trimmed(ss, lim);
    let ps = split_within(ss, lim);
    if ps.len() > 0 {
        assert(trimmed(ps[0]));
        assert(ps[0][0] == ss[r[0].0]);
    }
    if lim2 != lim && r.len() > 1 {
        // with a limit beyond the whole text, no second piece can be forced
        lemma_first_word_end(ss, r[1].0, r[1].0);
        lemma_offsets(ss, first_word_end(ss, r[1].0), ss.len() as int);
        lemma_offsets(ss, 0, r[0].0);
        assert(ss.take(ss.len() as int) =~= ss);
        assert(ss.take(0) =~= Seq::<char>::empty());
        assert(offset(ss, first_word_end(ss, r[1].0)) - offset(ss, r[0].0) > lim2);
    }
    r
}

/// Character `j` of `s` begins a word.
pub open spec fn word_start(s: Seq<char>, j: int) -> bool {
    0 <= j < s.len() && !is_white(s[j]) && (j == 0 || is_white(s[j - 1]))
}

/// The positions at which words begin.
pub open spec fn word_starts(s: Seq<char>) -> Set<int> {
    Set::new(|j: int| word_start(s, j))
}

proof fn lemma_ranges_increase(
    ss: Seq<char>,
    r: Seq<(int, int)>,
    ps: Seq<Seq<char>>,
    p: int,
    q: int,
)
    requires
        ranges_ok(ss, r, ps),
        0 <= p < q < r.len(),
    ensures
        r[p].0 < r[q].0,
    decreases q - p,
{
    assert(r[p].0 < r[p].1);
    assert(r[p].1 < r[p + 1].0);
    if p + 1 < q {
        lemma_ranges_increase(ss, r, ps, p + 1, q);
    }
}

/// There are no more pieces than words.
pub proof fn law_split_pieces_at_most_words(ss: Seq<char>, lim: nat)
    ensures
        split_within(ss, lim).len() <= word_starts(ss).len(),
        word_starts(ss).finite(),
{
    let r = law_split_pieces_cover(ss, lim);
    law_split_pieces_trimmed(ss, lim);
    let ps = split_within(ss, lim);
    let starts = r.map_values(|x: (int, int)| x.0);
    assert forall|q: int| 0 <= q < starts.len() implies word_start(ss, #[trigger] starts[q]) by {
        assert(starts[q] == r[q].0);
        assert(trimmed(ps[q]));
        assert(ps[q][0] == ss[r[q].0]);
        if q > 0 {
            assert(r[q - 1].1 < r[q].0);
            assert(is_white(ss[r[q].0 - 1]));
        } else if r[0].0 > 0 {
            assert(is_white(ss[r[0].0 - 1]));
        }
    }
    // starts increase strictly
    assert(starts.no_duplicates()) by {
        assert forall|p: int, q: int|
            0 <= p < starts.len() && 0 <= q < starts.len() && p != q implies starts[p]
            != starts[q] by {
            if p < q {
                lemma_ranges_increase(ss, r, ps, p, q);
            } else {
                lemma_ranges_increase(ss, r, ps, q, p);
            }
        }
    }
    starts.unique_seq_to_set();
    vstd::set_lib::lemma_int_range(0, ss.len() as int);
    assert(word_starts(ss).subset_of(vstd::set_lib::set_int_range(0, ss.len() as int)));
    vstd::set_lib::lemma_len_subset(word_starts(ss), vstd::set_lib::set_int_range(0, ss.len() as int));
    assert(starts.to_set().subset_of(word_starts(ss)));
    vstd::set_lib::lemma_len_subset(starts.to_set(), word_starts(ss));
}

/// `a` stands first, in order, in `b`.
pub open spec fn starts_with(a: Seq<OptvalV>, b: Seq<OptvalV>) -> bool {
    a.len() <= b.len() && forall|j: int| 0 <= j < a.len() ==> #[trigger] b[j] == a[j]
}

/// Every option's values in `vals` stand first, in order, among its values in `v`.
pub open spec fn values_extend(vals: Seq<Seq<OptvalV>>, v: Seq<Seq<OptvalV>>) -> bool {
    &&& v.len() == vals.len()
    &&& forall|i: int| 0 <= i < vals.len() ==> starts_with(#[trigger] vals[i], v[i])
}

proof fn lemma_add_val_extends(
    vals0: Seq<Seq<OptvalV>>,
    vals: Seq<Seq<OptvalV>>,
    id: nat,
    x: OptvalV,
)
    requires
        values_extend(vals0, vals),
        id < vals.len(),
    ensures
        values_extend(vals0, add_val(vals, id, x)),
{
    let nv = add_val(vals, id, x);
    assert forall|i: int| 0 <= i < vals0.len() implies starts_with(#[trigger] vals0[i], nv[i]) by {
        assert(starts_with(vals0[i], vals[i]));
        if i == id {
            assert forall|j: int| 0 <= j < vals0[i].len() implies #[trigger] nv[i][j] == vals0[i][j] by {
                assert(vals[i][j] == vals0[i][j]);
            }
        } else {
            assert(nv[i] == vals[i]);
        }
    }
}

proof fn lemma_take_values_extend(
    opts: Seq<OptV>,
    names: Seq<NameV>,
    pos: nat,
    iarg: Option<Seq<char>>,
    was_long: bool,
    rest: Seq<Seq<char>>,
    used: nat,
    vals0: Seq<Seq<OptvalV>>,
    vals: Seq<Seq<OptvalV>>,
)
    requires
        values_extend(vals0, vals),
        vals.len() == opts.len(),
    ensures
        take_values(opts, names, pos, iarg, was_long, rest, used, vals) matches Ok((v, u))
            ==> values_extend(vals0, v),
    decreases names.len() - pos,
{
    if pos < names.len() {
        let nm = names[pos as int];
        crate::names::lemma_find_opt_bounds(opts, nm);
        match find_opt_spec(opts, nm) {
            None => {},
            Some(id) => {
                lemma_add_val_extends(vals0, vals, id, OptvalV::Given);
                lemma_take_values_extend(opts, names, pos + 1, iarg, was_long, rest, used, vals0, add_val(vals, id, OptvalV::Given));
                lemma_take_values_extend(opts, names, pos + 1, None, was_long, rest, used, vals0, add_val(vals, id, OptvalV::Given));
                if let Some(a) = iarg {
                    lemma_add_val_extends(vals0, vals, id, OptvalV::Val(a));
                    lemma_take_values_extend(opts, names, pos + 1, None, was_long, rest, used, vals0, add_val(vals, id, OptvalV::Val(a)));
                }
                if used < rest.len() {
                    let x = OptvalV::Val(rest[used as int]);
                    lemma_add_val_extends(vals0, vals, id, x);
                    lemma_take_values_extend(opts, names, pos + 1, None, was_long, rest, used + 1, vals0, add_val(vals, id, x));
                }
            },
        }
    }
}

/// Reading more words only adds values after those already recorded: the values of an
/// option are kept in the order of the words that gave them, so the first of them, which
/// `opt_str` reports, comes from the option's first occurrence.
pub proof fn law_values_in_reading_order(
    opts: Seq<OptV>,
    style: ParsingStyle,
    long_only: bool,
    args: Seq<Seq<char>>,
    vals: Seq<Seq<OptvalV>>,
    free: Seq<Seq<char>>,
)
    requires
        vals.len() == opts.len(),
    ensures
        parse_words(opts, style, long_only, args, vals, free) matches Ok((v, f)) ==> values_extend(
            vals,
            v,
        ),
{
    lemma_values_extend_from(opts, style, long_only, args, vals, vals, free);
}

proof fn lemma_values_extend_from(
    opts: Seq<OptV>,
    style: ParsingStyle,
    long_only: bool,
    args: Seq<Seq<char>>,
    vals0: Seq<Seq<OptvalV>>,
    vals: Seq<Seq<OptvalV>>,
    free: Seq<Seq<char>>,
)
    requires
        vals.len() == opts.len(),
        values_extend(vals0, vals),
    ensures
        parse_words(opts, style, long_only, args, vals, free) matches Ok((v, f)) ==> values_extend(
            vals0,
            v,
        ),
    decreases args.len(),
{
    if args.len() > 0 {
        let cur = args[0];
        let rest = args.drop_first();
        if is_arg(cur) {
            match option_names(opts, long_only, cur) {
                Ok((names, iarg, was_long)) => {
                    lemma_take_values_extend(opts, names, 0, iarg, was_long, rest, 0, vals0, vals);
                    lemma_take_values_used(opts, names, 0, iarg, was_long, rest, 0, vals);
                    match take_values(opts, names, 0, iarg, was_long, rest, 0, vals) {
                        Ok((v2, used)) => {
                            lemma_values_extend_from(
                                opts,
                                style,
                                long_only,
                                rest.skip(used as int),
                                vals0,
                                v2,
                                free,
                            );
                        },
                        Err(_) => {},
                    }
                },
                Err(_) => {},
            }
        } else {
            lemma_values_extend_from(opts, style, long_only, rest, vals0, vals, free.push(cur));
        }
    }
}

proof fn lemma_arg_strings_first(v: Seq<OptvalV>)
    ensures
        arg_strings(v).len() <= v.len(),
        v.len() > 0 && v[0] is Val ==> arg_strings(v).len() > 0 && arg_strings(v)[0]
            == v[0]->Val_0,
    decreases v.len(),
{
    if v.len() > 0 {
        let d = v.drop_last();
        lemma_arg_strings_first(d);
        if d.len() > 0 {
            assert(d[0] == v[0]);
        } else {
            assert(arg_strings(d).len() == 0);
        }
    }
}

/// `opt_strs` lists at most one argument per occurrence, and its first entry is the
/// argument that `opt_str` reports.
pub proof fn law_opt_strs_bounds(m: MatchesV, nm: Seq<char>)
    requires
        m.defined(nm),
    ensures
        arg_strings(m.values(nm)).len() <= m.count(nm),
        m.first_arg(nm) matches Some(s) ==> arg_strings(m.values(nm)).len() > 0 && arg_strings(
            m.values(nm),
        )[0] == s,
{
    lemma_arg_strings_first(m.values(nm));
}

/// Free words before the first option word are kept aside and change nothing else.
pub proof fn lemma_free_prefix(
    opts: Seq<OptV>,
    long_only: bool,
    pre: Seq<Seq<char>>,
    rest: Seq<Seq<char>>,
    vals: Seq<Seq<OptvalV>>,
    free: Seq<Seq<char>>,
)
    requires
        forall|i: int| 0 <= i < pre.len() ==> !is_arg(#[trigger] pre[i]),
    ensures
        parse_words(opts, ParsingStyle::FloatingFrees, long_only, pre + rest, vals, free)
            == parse_words(opts, ParsingStyle::FloatingFrees, long_only, rest, vals, free + pre),
    decreases pre.len(),
{
    if pre.len() == 0 {
        assert(pre + rest =~= rest);
        assert(free + pre =~= free);
    } else {
        let args = pre + rest;
        assert(args[0] == pre[0]);
        assert(args.drop_first() =~= pre.drop_first() + rest);
        assert forall|i: int| 0 <= i < pre.drop_first().len() implies !is_arg(
            #[trigger] pre.drop_first()[i],
        ) by {
            assert(pre.drop_first()[i] == pre[i + 1]);
        }
        lemma_free_prefix(opts, long_only, pre.drop_first(), rest, vals, free.push(pre[0]));
        assert(free.push(pre[0]) + pre.drop_first() =~= free + pre);
    }
}

/// `opt_str` reports the argument of an option's first occurrence: when the first
/// option word of the command line is `--name=value`, for an option that requires an
/// argument, a successful parse reports `value` for `name`, whatever follows.
pub proof fn law_opt_str_first_occurrence(
    o: OptionsV,
    pre: Seq<Seq<char>>,
    name: Seq<char>,
    value: Seq<char>,
    rest: Seq<Seq<char>>,
    m: MatchesV,
)
    requires
        o.parsing_style == ParsingStyle::FloatingFrees,
        forall|i: int| 0 <= i < pre.len() ==> !is_arg(#[trigger] pre[i]),
        name.len() > 0,
        find_char(name, '=', 0) is None,
        find_opt_spec(o.opts(), name_from(name)) matches Some(id) && o.opts()[id as int].hasarg
            == HasArg::Yes,
        parse_spec(o, pre + seq![seq!['-', '-'] + name + seq!['='] + value] + rest) == Ok::<
            MatchesV,
            FailV,
        >(m),
    ensures
        m.first_arg(name) == Some(value),
{
    let opts = o.opts();
    let id = find_opt_spec(opts, name_from(name))->0;
    crate::names::lemma_find_opt_bounds(opts, name_from(name));
    let w = seq!['-', '-'] + name + seq!['='] + value;
    let args = pre + seq![w] + rest;
    let v0 = no_vals(opts.len());
    assert(args =~= pre + (seq![w] + rest));
    lemma_free_prefix(opts, o.long_only, pre, seq![w] + rest, v0, seq![]);
    let f0 = Seq::<Seq<char>>::empty() + pre;
    let a1 = seq![w] + rest;
    assert(a1[0] == w);
    assert(a1.drop_first() =~= rest);
    assert(rest.skip(0) =~= rest);
    assert(w[0] == '-' && w[1] == '-' && w.len() > 2);
    assert(w != seq!['-', '-']);
    let t1 = w.skip(2);
    assert(t1 =~= name + seq!['='] + value);
    lemma_find_char_after(name, value, '=', 0);
    assert(t1.take(name.len() as int) =~= name);
    assert(t1.skip(name.len() + 1 as int) =~= value);
    assert(long_names(w) == (seq![name_from(name)], Some(value)));
    let names = seq![name_from(name)];
    let v1 = add_val(v0, id, OptvalV::Val(value));
    assert(take_values(opts, names, 1, None, true, rest, 0, v1) == Ok::<(Seq<Seq<OptvalV>>, nat), FailV>((v1, 0nat)));
    assert(take_values(opts, names, 0, Some(value), true, rest, 0, v0) == Ok::<(Seq<Seq<OptvalV>>, nat), FailV>((v1, 0nat)));
    assert(parse_words(opts, o.parsing_style, o.long_only, a1, v0, f0) == parse_words(opts, o.parsing_style, o.long_only, rest, v1, f0));
    law_values_in_reading_order(opts, o.parsing_style, o.long_only, rest, v1, f0);
    law_parse_respects_occur(o, args);
    assert(v1[id as int] =~= seq![OptvalV::Val(value)]);
    assert(starts_with(v1[id as int], m.vals[id as int]));
    assert(m.vals[id as int][0] == OptvalV::Val(value));
}

/// Wherever the parser stands, when it reads the first occurrence of an option (no
/// value recorded for it yet) as `--name=value`, the option's first value carries
/// `value`; when it reads it as `--name` alone and the option does not require an
/// argument, its first value carries none. So `opt_str` reports the argument of the
/// first occurrence, or nothing when that occurrence had none.
pub proof fn law_first_occurrence_value(
    opts: Seq<OptV>,
    style: ParsingStyle,
    long_only: bool,
    name: Seq<char>,
    value: Seq<char>,
    with_value: bool,
    rest: Seq<Seq<char>>,
    vals: Seq<Seq<OptvalV>>,
    free: Seq<Seq<char>>,
)
    requires
        vals.len() == opts.len(),
        name.len() > 0,
        find_char(name, '=', 0) is None,
        find_opt_spec(opts, name_from(name)) matches Some(id) && vals[id as int].len() == 0 && (
        with_value ==> opts[id as int].hasarg != HasArg::No) && (!with_value
            ==> opts[id as int].hasarg != HasArg::Yes),
    ensures
        ({
            let w = if with_value {
                seq!['-', '-'] + name + seq!['='] + value
            } else {
                seq!['-', '-'] + name
            };
            let id = find_opt_spec(opts, name_from(name))->0 as int;
            parse_words(opts, style, long_only, seq![w] + rest, vals, free) matches Ok((v, f))
                ==> v[id].len() > 0 && v[id][0] == (if with_value {
                OptvalV::Val(value)
            } else {
                OptvalV::Given
            })
        }),
{
    let id = find_opt_spec(opts, name_from(name))->0;
    crate::names::lemma_find_opt_bounds(opts, name_from(name));
    let w = if with_value {
        seq!['-', '-'] + name + seq!['='] + value
    } else {
        seq!['-', '-'] + name
    };
    let x = if with_value {
        OptvalV::Val(value)
    } else {
        OptvalV::Given
    };
    let a1 = seq![w] + rest;
    assert(a1[0] == w);
    assert(a1.drop_first() =~= rest);
    assert(rest.skip(0) =~= rest);
    assert(w[0] == '-' && w[1] == '-' && w.len() > 2);
    assert(w != seq!['-', '-']);
    let names = seq![name_from(name)];
    let iarg = if with_value {
        Some(value)
    } else {
        None
    };
    if with_value {
        let t1 = w.skip(2);
        assert(t1 =~= name + seq!['='] + value);
        lemma_find_char_after(name, value, '=', 0);
        assert(t1.take(name.len() as int) =~= name);
        assert(t1.skip(name.len() + 1 as int) =~= value);
    } else {
        assert(w.skip(2) =~= name);
    }
    assert(long_names(w) == (names, iarg));
    let v1 = add_val(vals, id, x);
    assert(take_values(opts, names, 1, None, true, rest, 0, v1) == Ok::<(Seq<Seq<OptvalV>>, nat), FailV>((v1, 0nat)));
    assert(take_values(opts, names, 1, iarg, true, rest, 0, v1) == Ok::<(Seq<Seq<OptvalV>>, nat), FailV>((v1, 0nat)));
    assert(take_values(opts, names, 0, iarg, true, rest, 0, vals) == Ok::<(Seq<Seq<OptvalV>>, nat), FailV>((v1, 0nat)));
    assert(parse_words(opts, style, long_only, a1, vals, free) == parse_words(opts, style, long_only, rest, v1, free));
    law_values_in_reading_order(opts, style, long_only, rest, v1, free);
    assert(v1[id as int] =~= seq![x]);
    match parse_words(opts, style, long_only, rest, v1, free) {
        Ok((v, f)) => {
            assert(starts_with(v1[id as int], v[id as int]));
            assert(v[id as int][0] == v1[id as int][0]);
        },
        Err(_) => {},
    }
}

/// Wherever the parser stands, whatever values it has recorded, the word `--` ends
/// option processing: all later words are free, and nothing else changes.
pub proof fn law_double_dash_anywhere(
    opts: Seq<OptV>,
    style: ParsingStyle,
    long_only: bool,
    rest: Seq<Seq<char>>,
    vals: Seq<Seq<OptvalV>>,
    free: Seq<Seq<char>>,
)
    ensures
        parse_words(opts, style, long_only, seq![seq!['-', '-']] + rest, vals, free) == Ok::<
            (Seq<Seq<OptvalV>>, Seq<Seq<char>>),
            FailV,
        >((vals, free + rest)),
{
    let args = seq![seq!['-', '-']] + rest;
    assert(args[0] == seq!['-', '-']);
    assert(args.drop_first() =~= rest);
}

/// After a short flag, the next option of a cluster reads as it would on its own, taking
/// its argument (required or optional) from the following word alike: `-ac ...` reads as
/// `-a -c ...`.
pub proof fn law_short_cluster_flag_then_option(
    opts: Seq<OptV>,
    style: ParsingStyle,
    a: char,
    c: char,
    rest: Seq<Seq<char>>,
    vals: Seq<Seq<OptvalV>>,
    free: Seq<Seq<char>>,
)
    requires
        a != '-',
        c != '-',
        find_opt_spec(opts, NameV::Short(a)) matches Some(ia) && opts[ia as int].hasarg
            == HasArg::No,
        find_opt_spec(opts, NameV::Short(c)) is Some,
    ensures
        parse_words(opts, style, false, seq![seq!['-', a, c]] + rest, vals, free) == parse_words(
            opts,
            style,
            false,
            seq![seq!['-', a], seq!['-', c]] + rest,
            vals,
            free,
        ),
{
    let ia = find_opt_spec(opts, NameV::Short(a))->0;
    let w = seq!['-', a, c];
    let wa = seq!['-', a];
    let wc = seq!['-', c];
    let a1 = seq![w] + rest;
    let a2 = seq![wa, wc] + rest;
    let r2 = seq![wc] + rest;
    assert(a1[0] == w);
    assert(a1.drop_first() =~= rest);
    assert(a2[0] == wa);
    assert(a2.drop_first() =~= r2);
    assert(r2[0] == wc);
    assert(r2.drop_first() =~= rest);
    assert(r2.skip(0) =~= r2);
    assert(w != seq!['-', '-']);
    assert(wa != seq!['-', '-']);
    assert(wc != seq!['-', '-']);
    let na = seq![NameV::Short(a)];
    let nc = seq![NameV::Short(c)];
    let nac = seq![NameV::Short(a), NameV::Short(c)];
    assert(Seq::<NameV>::empty().push(NameV::Short(a)) =~= na);
    assert(Seq::<NameV>::empty().push(NameV::Short(c)) =~= nc);
    assert(na.push(NameV::Short(c)) =~= nac);
    assert(short_names(opts, w, 3, nac) == Ok::<(Seq<NameV>, Option<Seq<char>>), FailV>((nac, None)));
    assert(short_names(opts, w, 2, na) == Ok::<(Seq<NameV>, Option<Seq<char>>), FailV>((nac, None)));
    assert(short_names(opts, w, 1, seq![]) == Ok::<(Seq<NameV>, Option<Seq<char>>), FailV>((nac, None)));
    assert(short_names(opts, wa, 2, na) == Ok::<(Seq<NameV>, Option<Seq<char>>), FailV>((na, None)));
    assert(short_names(opts, wa, 1, seq![]) == Ok::<(Seq<NameV>, Option<Seq<char>>), FailV>((na, None)));
    assert(short_names(opts, wc, 2, nc) == Ok::<(Seq<NameV>, Option<Seq<char>>), FailV>((nc, None)));
    assert(short_names(opts, wc, 1, seq![]) == Ok::<(Seq<NameV>, Option<Seq<char>>), FailV>((nc, None)));
    let v1 = add_val(vals, ia, OptvalV::Given);
    // the flag `a`, not last in the cluster, is recorded bare
    assert(take_values(opts, nac, 0, None, false, rest, 0, vals) == take_values(
        opts,
        nac,
        1,
        None,
        false,
        rest,
        0,
        v1,
    ));
    assert(take_values(opts, na, 1, None, false, r2, 0, v1) == Ok::<(Seq<Seq<OptvalV>>, nat), FailV>((v1, 0nat)));
    assert(take_values(opts, na, 0, None, false, r2, 0, vals) == Ok::<(Seq<Seq<OptvalV>>, nat), FailV>((v1, 0nat)));
    // `c` ends the cluster as it ends its own word
    lemma_last_name_alike(opts, nac, nc, rest, v1);
    assert(option_names(opts, false, w) == Ok::<(Seq<NameV>, Option<Seq<char>>, bool), FailV>((nac, None, false)));
    assert(option_names(opts, false, wa) == Ok::<(Seq<NameV>, Option<Seq<char>>, bool), FailV>((na, None, false)));
    assert(option_names(opts, false, wc) == Ok::<(Seq<NameV>, Option<Seq<char>>, bool), FailV>((nc, None, false)));
    assert(parse_words(opts, style, false, a2, vals, free) == parse_words(opts, style, false, r2, v1, free));
    let t = take_values(opts, nc, 0, None, false, rest, 0, v1);
    assert(take_values(opts, nac, 0, None, false, rest, 0, vals) == t);
    assert(parse_words(opts, style, false, a1, vals, free) == match t {
        Err(e) => Err(e),
        Ok((v2, used)) => parse_words(opts, style, false, rest.skip(used as int), v2, free),
    });
    assert(parse_words(opts, style, false, r2, v1, free) == match t {
        Err(e) => Err(e),
        Ok((v2, used)) => parse_words(opts, style, false, rest.skip(used as int), v2, free),
    });
}

proof fn lemma_last_name_alike(
    opts: Seq<OptV>,
    two: Seq<NameV>,
    one: Seq<NameV>,
    rest: Seq<Seq<char>>,
    vals: Seq<Seq<OptvalV>>,
)
    requires
        two.len() == 2,
        one.len() == 1,
        two[1] == one[0],
    ensures
        take_values(opts, two, 1, None, false, rest, 0, vals) == take_values(
            opts,
            one,
            0,
            None,
            false,
            rest,
            0,
            vals,
        ),
{
    let nm = one[0];
    match find_opt_spec(opts, nm) {
        None => {},
        Some(id) => {
            let g = add_val(vals, id, OptvalV::Given);
            assert(take_values(opts, two, 2, None, false, rest, 0, g) == take_values(opts, one, 1, None, false, rest, 0, g));
            if rest.len() > 0 {
                let x = add_val(vals, id, OptvalV::Val(rest[0]));
                assert(take_values(opts, two, 2, None, false, rest, 1, x) == take_values(opts, one, 1, None, false, rest, 1, x));
            }
        },
    }
}

/// In the usage line an option's synopsis is in square brackets exactly when the option
/// is not required, whether it takes an argument or not; a repeatable option is marked
/// with `..` after its brackets.
pub proof fn law_synopsis_brackets(g: OptGroupV)
    ensures
        crate::options::option_synopsis(g).len() > 0,
        (crate::options::option_synopsis(g)[0] == '[') <==> g.occur != Occur::Req,
        g.occur == Occur::Optional ==> crate::options::option_synopsis(g).last() == ']',
        g.occur == Occur::Multi ==> crate::options::option_synopsis(g).subrange(
            crate::options::option_synopsis(g).len() - 3,
            crate::options::option_synopsis(g).len() as int,
        ) == seq![']', '.', '.'],
        g.occur == Occur::Req ==> crate::options::option_synopsis(g)[0] == '-',
{
    reveal_strlit("[");
    reveal_strlit("]");
    reveal_strlit("..");
    reveal_strlit("-");
    reveal_strlit("--");
    reveal_strlit(" ");
    let s = crate::options::option_synopsis(g);
    let name = crate::options::synopsis_name(g);
    let arg = crate::options::synopsis_arg(g);
    let open = crate::options::text_if(g.occur != Occur::Req, "["@);
    let close = crate::options::text_if(g.occur != Occur::Req, "]"@);
    let rep = crate::options::text_if(g.occur == Occur::Multi, ".."@);
    assert(name.len() > 0 && name[0] == '-');
    assert(s == open + name + arg + close + rep);
    if g.occur == Occur::Req {
        assert(s[0] == name[0]);
    } else {
        assert(s[0] == '[');
        if g.occur == Occur::Optional {
            assert(s.last() == ']');
        } else {
            assert(s.subrange(s.len() - 3, s.len() as int) =~= seq![']', '.', '.']);
        }
    }
}

/// The first argument among several names is that of the first name, in their order,
/// whose first occurrence carried an argument; a name that occurred without one is
/// passed over like a name that did not occur.
pub proof fn law_first_arg_of_any(m: MatchesV, names: Seq<Seq<char>>)
    ensures
        m.first_arg_of_any(names) matches Some(s) ==> exists|i: int|
            0 <= i < names.len() && m.first_arg(#[trigger] names[i]) == Some(s) && forall|j: int|
                0 <= j < i ==> m.first_arg(#[trigger] names[j]) is None,
        m.first_arg_of_any(names) is None ==> forall|i: int|
            0 <= i < names.len() ==> m.first_arg(#[trigger] names[i]) is None,
    decreases names.len(),
{
    if names.len() > 0 {
        let tail = names.drop_first();
        law_first_arg_of_any(m, tail);
        match m.first_arg(names[0]) {
            Some(s) => {
                assert(m.first_arg(names[0]) == Some(s));
            },
            None => {
                match m.first_arg_of_any(tail) {
                    Some(s) => {
                        let i = choose|i: int|
                            0 <= i < tail.len() && m.first_arg(#[trigger] tail[i]) == Some(s)
                                && forall|j: int| 0 <= j < i ==> m.first_arg(#[trigger] tail[j]) is None;
                        assert(names[i + 1] == tail[i]);
                        assert forall|j: int| 0 <= j < i + 1 implies m.first_arg(
                            #[trigger] names[j],
                        ) is None by {
                            if j > 0 {
                                assert(names[j] == tail[j - 1]);
                            }
                        }
                    },
                    None => {
                        assert forall|i: int| 0 <= i < names.len() implies m.first_arg(
                            #[trigger] names[i],
                        ) is None by {
                            if i > 0 {
                                assert(names[i] == tail[i - 1]);
                            }
                        }
                    },
                }
            },
        }
    }
}

/// A name counts as present among several exactly when it is defined and occurred at
/// least once, whether or not its occurrences carried arguments; for a single defined
/// name this is what `opt_present` reports.
pub proof fn law_present_among_several(m: MatchesV, nm: Seq<char>)
    ensures
        m.present_if_defined(nm) <==> (m.defined(nm) && m.count(nm) > 0),
        m.defined(nm) ==> (m.present_if_defined(nm) <==> m.present(nm)),
{
}

proof fn lemma_long_word(name: Seq<char>)
    requires
        name.len() > 0,
        find_char(name, '=', 0) is None,
    ensures
        ({
            let w = seq!['-', '-'] + name;
            &&& is_arg(w) && w != seq!['-', '-'] && w[1] == '-'
            &&& long_names(w) == (seq![name_from(name)], None::<Seq<char>>)
        }),
        name_text(name_from(name)) == name,
{
    let w = seq!['-', '-'] + name;
    assert(w.len() > 2);
    assert(w.skip(2) =~= name);
    lemma_byte_len_one(name);
    if byte_len(name) == 1 {
        assert(name =~= seq![name[0]]);
    }
}

/// The long form of an option whose argument is optional never takes the next word:
/// `--name` records a bare occurrence and the parser goes on with the next word.
pub proof fn law_optional_long_takes_no_next_word(
    opts: Seq<OptV>,
    style: ParsingStyle,
    long_only: bool,
    name: Seq<char>,
    rest: Seq<Seq<char>>,
    vals: Seq<Seq<OptvalV>>,
    free: Seq<Seq<char>>,
)
    requires
        name.len() > 0,
        find_char(name, '=', 0) is None,
        find_opt_spec(opts, name_from(name)) matches Some(id) && opts[id as int].hasarg
            == HasArg::Maybe,
    ensures
        parse_words(opts, style, long_only, seq![seq!['-', '-'] + name] + rest, vals, free)
            == parse_words(
            opts,
            style,
            long_only,
            rest,
            add_val(vals, find_opt_spec(opts, name_from(name))->0, OptvalV::Given),
            free,
        ),
{
    let id = find_opt_spec(opts, name_from(name))->0;
    lemma_long_word(name);
    let w = seq!['-', '-'] + name;
    let a = seq![w] + rest;
    assert(a[0] == w);
    assert(a.drop_first() =~= rest);
    assert(rest.skip(0) =~= rest);
    let names = seq![name_from(name)];
    let v1 = add_val(vals, id, OptvalV::Given);
    assert(take_values(opts, names, 1, None, true, rest, 0, v1) == Ok::<(Seq<Seq<OptvalV>>, nat), FailV>((v1, 0nat)));
    assert(take_values(opts, names, 0, None, true, rest, 0, vals) == Ok::<(Seq<Seq<OptvalV>>, nat), FailV>((v1, 0nat)));
}

/// A short option whose argument is optional, ending its word, takes the next word as
/// its argument unless that word is itself an option word (or there is none).
pub proof fn law_optional_short_next_word(
    opts: Seq<OptV>,
    style: ParsingStyle,
    c: char,
    next: Seq<char>,
    rest: Seq<Seq<char>>,
    vals: Seq<Seq<OptvalV>>,
    free: Seq<Seq<char>>,
)
    requires
        c != '-',
        find_opt_spec(opts, NameV::Short(c)) matches Some(id) && opts[id as int].hasarg
            == HasArg::Maybe,
    ensures
        ({
            let id = find_opt_spec(opts, NameV::Short(c))->0;
            parse_words(opts, style, false, seq![seq!['-', c], next] + rest, vals, free) == if is_arg(
                next,
            ) {
                parse_words(opts, style, false, seq![next] + rest, add_val(vals, id, OptvalV::Given), free)
            } else {
                parse_words(opts, style, false, rest, add_val(vals, id, OptvalV::Val(next)), free)
            }
        }),
        parse_words(opts, style, false, seq![seq!['-', c]], vals, free) == Ok::<
            (Seq<Seq<OptvalV>>, Seq<Seq<char>>),
            FailV,
        >((add_val(vals, find_opt_spec(opts, NameV::Short(c))->0, OptvalV::Given), free)),
{
    let id = find_opt_spec(opts, NameV::Short(c))->0;
    let w = seq!['-', c];
    let r = seq![next] + rest;
    let a = seq![w, next] + rest;
    assert(a[0] == w);
    assert(a.drop_first() =~= r);
    assert(r[0] == next);
    assert(r.skip(0) =~= r);
    assert(r.skip(1) =~= rest);
    assert(w != seq!['-', '-']);
    let names = seq![NameV::Short(c)];
    assert(Seq::<NameV>::empty().push(NameV::Short(c)) =~= names);
    assert(short_names(opts, w, 2, names) == Ok::<(Seq<NameV>, Option<Seq<char>>), FailV>((names, None)));
    assert(short_names(opts, w, 1, seq![]) == Ok::<(Seq<NameV>, Option<Seq<char>>), FailV>((names, None)));
    let vg = add_val(vals, id, OptvalV::Given);
    let vv = add_val(vals, id, OptvalV::Val(next));
    assert(take_values(opts, names, 1, None, false, r, 0, vg) == Ok::<(Seq<Seq<OptvalV>>, nat), FailV>((vg, 0nat)));
    assert(take_values(opts, names, 1, None, false, r, 1, vv) == Ok::<(Seq<Seq<OptvalV>>, nat), FailV>((vv, 1nat)));
    let e = Seq::<Seq<char>>::empty();
    let a0 = seq![w];
    assert(a0[0] == w);
    assert(a0.drop_first() =~= e);
    assert(e.skip(0) =~= e);
    assert(take_values(opts, names, 1, None, false, e, 0, vg) == Ok::<(Seq<Seq<OptvalV>>, nat), FailV>((vg, 0nat)));
    assert(take_values(opts, names, 0, None, false, e, 0, vals) == Ok::<(Seq<Seq<OptvalV>>, nat), FailV>((vg, 0nat)));
    assert(option_names(opts, false, w) == Ok::<(Seq<NameV>, Option<Seq<char>>, bool), FailV>((names, None, false)));
    assert(parse_words(opts, style, false, e, vg, free) == Ok::<(Seq<Seq<OptvalV>>, Seq<Seq<char>>), FailV>((vg, free)));
}

/// An option that takes no argument refuses one given with `=`, naming the option.
pub proof fn law_flag_refuses_argument(
    opts: Seq<OptV>,
    style: ParsingStyle,
    long_only: bool,
    name: Seq<char>,
    value: Seq<char>,
    rest: Seq<Seq<char>>,
    vals: Seq<Seq<OptvalV>>,
    free: Seq<Seq<char>>,
)
    requires
        name.len() > 0,
        find_char(name, '=', 0) is None,
        find_opt_spec(opts, name_from(name)) matches Some(id) && opts[id as int].hasarg
            == HasArg::No,
    ensures
        parse_words(
            opts,
            style,
            long_only,
            seq![seq!['-', '-'] + name + seq!['='] + value] + rest,
            vals,
            free,
        ) == Err::<(Seq<Seq<OptvalV>>, Seq<Seq<char>>), FailV>(FailV::UnexpectedArgument(name)),
{
    lemma_long_word(name);
    let w = seq!['-', '-'] + name + seq!['='] + value;
    let a = seq![w] + rest;
    assert(a[0] == w);
    assert(w[0] == '-' && w[1] == '-' && w.len() > 2);
    assert(w != seq!['-', '-']);
    let t1 = w.skip(2);
    assert(t1 =~= name + seq!['='] + value);
    lemma_find_char_after(name, value, '=', 0);
    assert(t1.take(name.len() as int) =~= name);
    assert(t1.skip(name.len() + 1 as int) =~= value);
    assert(long_names(w) == (seq![name_from(name)], Some(value)));
}

/// A name that selects no option is refused, named as it was written.
pub proof fn law_unknown_long_refused(
    opts: Seq<OptV>,
    style: ParsingStyle,
    long_only: bool,
    name: Seq<char>,
    rest: Seq<Seq<char>>,
    vals: Seq<Seq<OptvalV>>,
    free: Seq<Seq<char>>,
)
    requires
        name.len() > 0,
        find_char(name, '=', 0) is None,
        find_opt_spec(opts, name_from(name)) is None,
    ensures
        parse_words(opts, style, long_only, seq![seq!['-', '-'] + name] + rest, vals, free)
            == Err::<(Seq<Seq<OptvalV>>, Seq<Seq<char>>), FailV>(FailV::UnrecognizedOption(name)),
{
    lemma_long_word(name);
    let w = seq!['-', '-'] + name;
    let a = seq![w] + rest;
    assert(a[0] == w);
}

/// A short option character that selects no option is refused, named by itself.
pub proof fn law_unknown_short_refused(
    opts: Seq<OptV>,
    style: ParsingStyle,
    c: char,
    tail: Seq<char>,
    rest: Seq<Seq<char>>,
    vals: Seq<Seq<OptvalV>>,
    free: Seq<Seq<char>>,
)
    requires
        c != '-',
        find_opt_spec(opts, NameV::Short(c)) is None,
    ensures
        parse_words(opts, style, false, seq![seq!['-', c] + tail] + rest, vals, free) == Err::<
            (Seq<Seq<OptvalV>>, Seq<Seq<char>>),
            FailV,
        >(FailV::UnrecognizedOption(seq![c])),
{
    let w = seq!['-', c] + tail;
    let a = seq![w] + rest;
    assert(a[0] == w);
    assert(w[0] == '-' && w[1] == c);
    assert(w.len() == 2 ==> w =~= seq!['-', c]);
    assert(w != seq!['-', '-']);
}

/// An option that requires an argument, written last with nothing after it, is
/// refused for the missing argument.
pub proof fn law_missing_argument_refused(
    opts: Seq<OptV>,
    style: ParsingStyle,
    long_only: bool,
    name: Seq<char>,
    vals: Seq<Seq<OptvalV>>,
    free: Seq<Seq<char>>,
)
    requires
        name.len() > 0,
        find_char(name, '=', 0) is None,
        find_opt_spec(opts, name_from(name)) matches Some(id) && opts[id as int].hasarg
            == HasArg::Yes,
    ensures
        parse_words(opts, style, long_only, seq![seq!['-', '-'] + name], vals, free) == Err::<
            (Seq<Seq<OptvalV>>, Seq<Seq<char>>),
            FailV,
        >(FailV::ArgumentMissing(name)),
{
    lemma_long_word(name);
    let w = seq!['-', '-'] + name;
    let a = seq![w];
    assert(a[0] == w);
    assert(a.drop_first() =~= Seq::<Seq<char>>::empty());
}

/// Once the words are read without failure, the parse succeeds exactly when every
/// option occurs as often as its `Occur` allows.
pub proof fn law_occurrence_decides(o: OptionsV, args: Seq<Seq<char>>)
    requires
        parse_words(
            o.opts(),
            o.parsing_style,
            o.long_only,
            args,
            no_vals(o.opts().len()),
            seq![],
        ) is Ok,
    ensures
        ({
            let vals = parse_words(
                o.opts(),
                o.parsing_style,
                o.long_only,
                args,
                no_vals(o.opts().len()),
                seq![],
            )->Ok_0.0;
            parse_spec(o, args) is Ok <==> forall|i: int|
                0 <= i < o.grps.len() ==> (o.grps[i].occur == Occur::Req ==> #[trigger] vals[i].len()
                    >= 1) && (o.grps[i].occur != Occur::Multi ==> vals[i].len() <= 1)
        }),
{
    let opts = o.opts();
    let v0 = no_vals(opts.len());
    lemma_parse_words_len(opts, o.parsing_style, o.long_only, args, v0, seq![]);
    let vals = parse_words(opts, o.parsing_style, o.long_only, args, v0, seq![])->Ok_0.0;
    lemma_occurrence_decides(opts, vals, 0);
}

proof fn lemma_occurrence_decides(opts: Seq<OptV>, vals: Seq<Seq<OptvalV>>, j: nat)
    requires
        vals.len() == opts.len(),
    ensures
        occurrence_failure(opts, vals, j) is None <==> forall|i: int|
            j <= i < opts.len() ==> (opts[i].occur == Occur::Req ==> #[trigger] vals[i].len() >= 1)
                && (opts[i].occur != Occur::Multi ==> vals[i].len() <= 1),
    decreases opts.len() - j,
{
    if j < opts.len() {
        lemma_occurrence_decides(opts, vals, j + 1);
    }
}

/// A name written as a word denotes a short name exactly when the word is a single
/// ASCII character.
pub proof fn law_name_from_short(s: Seq<char>, c: char)
    ensures
        name_from(s) == NameV::Short(c) <==> (s == seq![c] && (c as u32) <= 0x7F),
        name_from(s) is Long ==> name_from(s) == NameV::Long(s),
{
    lemma_byte_len_one(s);
    if s == seq![c] {
        assert(s[0] == c);
    }
    if byte_len(s) == 1 {
        assert(s =~= seq![s[0]]);
    }
}

/// Accepted names: a short name is empty or one ASCII character; a long name is
/// anything but one ASCII character.
pub proof fn law_names_valid(short_name: Seq<char>, long_name: Seq<char>)
    ensures
        crate::grammar::names_valid(short_name, long_name) <==> ((short_name.len() == 0 || (
        short_name.len() == 1 && (short_name[0] as u32) <= 0x7F)) && !(long_name.len() == 1 && (
        long_name[0] as u32) <= 0x7F)),
{
    lemma_byte_len_one(short_name);
    lemma_byte_len_one(long_name);
}

/// The usage line lists the options in the order they were described, one synopsis
/// each, separated by single spaces: describing one more option appends its synopsis.
pub proof fn law_usage_line_appends(p: Seq<char>, o: OptionsV, g: OptGroupV)
    ensures
        crate::options::usage_line(p, OptionsV { grps: seq![], ..o }) == "Usage: "@ + p + " "@,
        o.grps.len() > 0 ==> crate::options::usage_line(p, o.with_group(g))
            == crate::options::usage_line(p, o) + " "@ + crate::options::option_synopsis(g),
        o.grps.len() == 0 ==> crate::options::usage_line(p, o.with_group(g))
            == crate::options::usage_line(p, o) + crate::options::option_synopsis(g),
{
    let f = |x: OptGroupV| crate::options::option_synopsis(x);
    let a = o.grps.map_values(f);
    let b = o.with_group(g).grps.map_values(f);
    assert(b =~= a.push(crate::options::option_synopsis(g)));
    assert(b.drop_last() =~= a);
    assert(OptionsV { grps: seq![], ..o }.grps.map_values(f) =~= Seq::<Seq<char>>::empty());
    if o.grps.len() == 0 {
        assert(a =~= Seq::<Seq<char>>::empty());
        assert(b.len() == 1);
    }
    assert("Usage: "@ + p + " "@ + Seq::<char>::empty() =~= "Usage: "@ + p + " "@);
    assert(crate::options::usage_line(p, o) + " "@ + crate::options::option_synopsis(g) =~= "Usage: "@ + p + " "@ + (crate::options::join_words(a, " "@) + " "@ + crate::options::option_synopsis(g)));
    assert(crate::options::usage_line(p, o) + crate::options::option_synopsis(g) =~= "Usage: "@ + p + " "@ + (crate::options::join_words(a, " "@) + crate::options::option_synopsis(g)));
}

/// The text of the name a word denotes is the word itself.
pub proof fn law_name_text_roundtrip(s: Seq<char>)
    ensures
        name_text(name_from(s)) == s,
{
    lemma_byte_len_one(s);
    if byte_len(s) == 1 {
        assert(s =~= seq![s[0]]);
    }
}

proof fn lemma_index_of_name_first(opts: Seq<OptV>, nm: NameV, from: nat)
    ensures
        index_of_name(opts, nm, from) matches Some(i) ==> forall|j: int|
            from <= j < i ==> #[trigger] opts[j].name != nm,
    decreases opts.len() - from,
{
    if from < opts.len() && opts[from as int].name != nm {
        lemma_index_of_name_first(opts, nm, from + 1);
    }
}

/// An option's own name wins over aliases: when some option bears `nm` as its name, the
/// first such option is the one selected, whatever aliases other options list.
pub proof fn law_find_opt_prefers_names(opts: Seq<OptV>, nm: NameV, k: int)
    requires
        0 <= k < opts.len(),
        opts[k].name == nm,
    ensures
        find_opt_spec(opts, nm) matches Some(i) && i <= k && opts[i as int].name == nm && forall|
            j: int,
        | 0 <= j < i ==> #[trigger] opts[j].name != nm,
{
    lemma_index_of_name(opts, nm, 0);
    lemma_index_of_name_first(opts, nm, 0);
}

/// A word that does not name options (one that does not start with `-`, or `-` alone)
/// is a free word, wherever it stands among floating free words.
pub proof fn law_plain_word_free(
    opts: Seq<OptV>,
    long_only: bool,
    w: Seq<char>,
    rest: Seq<Seq<char>>,
    vals: Seq<Seq<OptvalV>>,
    free: Seq<Seq<char>>,
)
    requires
        w.len() < 2 || w[0] != '-',
    ensures
        parse_words(opts, ParsingStyle::FloatingFrees, long_only, seq![w] + rest, vals, free)
            == parse_words(opts, ParsingStyle::FloatingFrees, long_only, rest, vals, free.push(w)),
{
    let a = seq![w] + rest;
    assert(a[0] == w);
    assert(a.drop_first() =~= rest);
}

/// How the synopsis of an option is built up: the bare name, by the short name when
/// there is one; the hint after a space, bracketed when the argument is optional; the
/// whole in brackets when the option is not required; `..` after when it may repeat.
pub proof fn law_synopsis_parts(g: OptGroupV)
    ensures
        ({
            let bare = OptGroupV { occur: Occur::Req, hasarg: HasArg::No, ..g };
            let req = OptGroupV { occur: Occur::Req, ..g };
            let opt = OptGroupV { occur: Occur::Optional, ..g };
            let multi = OptGroupV { occur: Occur::Multi, ..g };
            &&& crate::options::option_synopsis(bare) == if g.short_name.len() > 0 {
                seq!['-'] + g.short_name
            } else {
                seq!['-', '-'] + g.long_name
            }
            &&& g.hasarg == HasArg::No ==> crate::options::option_synopsis(req)
                == crate::options::option_synopsis(bare)
            &&& g.hasarg == HasArg::Yes ==> crate::options::option_synopsis(req)
                == crate::options::option_synopsis(bare) + seq![' '] + g.hint
            &&& g.hasarg == HasArg::Maybe ==> crate::options::option_synopsis(req)
                == crate::options::option_synopsis(bare) + seq![' ', '['] + g.hint + seq![']']
            &&& crate::options::option_synopsis(opt) == seq!['['] + crate::options::option_synopsis(
                req,
            ) + seq![']']
            &&& crate::options::option_synopsis(multi) == crate::options::option_synopsis(opt)
                + seq!['.', '.']
        }),
{
    reveal_strlit("[");
    reveal_strlit("]");
    reveal_strlit("..");
    reveal_strlit("-");
    reveal_strlit("--");
    reveal_strlit(" ");
    let bare = OptGroupV { occur: Occur::Req, hasarg: HasArg::No, ..g };
    let req = OptGroupV { occur: Occur::Req, ..g };
    let opt = OptGroupV { occur: Occur::Optional, ..g };
    let multi = OptGroupV { occur: Occur::Multi, ..g };
    let e = Seq::<char>::empty();
    let name = crate::options::synopsis_name(g);
    assert(crate::options::synopsis_name(bare) == name);
    assert(crate::options::synopsis_name(req) == name);
    assert(crate::options::synopsis_name(opt) == name);
    assert(crate::options::synopsis_name(multi) == name);
    let arg = crate::options::synopsis_arg(g);
    assert(crate::options::synopsis_arg(req) == arg);
    assert(crate::options::synopsis_arg(opt) == arg);
    assert(crate::options::synopsis_arg(multi) == arg);
    assert(crate::options::synopsis_arg(bare) == e);
    assert(crate::options::option_synopsis(bare) =~= name);
    assert(crate::options::option_synopsis(req) =~= name + arg);
    assert(crate::options::option_synopsis(opt) =~= seq!['['] + (name + arg) + seq![']']);
    assert(crate::options::option_synopsis(multi) =~= seq!['['] + (name + arg) + seq![']'] + seq![
        '.',
        '.',
    ]);
    if g.short_name.len() > 0 {
        assert(name =~= seq!['-'] + g.short_name);
    } else {
        assert(name =~= seq!['-', '-'] + g.long_name);
    }
    if g.hasarg == HasArg::Yes {
        assert(arg =~= seq![' '] + g.hint);
    }
    if g.hasarg == HasArg::Maybe {
        assert(arg =~= seq![' ', '['] + g.hint + seq![']']);
    }
}

} // verus!
