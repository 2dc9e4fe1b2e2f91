//! Which files a LaTeX document names, backup names, and command-line
//! arguments.
use vstd::prelude::*;
use crate::chars::{chars_of};
use crate::text::{trim, trim_chars, has_prefix, starts_with_lit, copy_range, append_lit};
use crate::scan::{cmd_args_scan, find_command_brace_args};
use crate::cite::{group_keys, keys_of_group};
use crate::keys::keys_view;

verus! {

/// The names in the arguments of `\bibliography{a,b}` (comma-separated)
/// and then of `\addbibresource{c}`, trimmed, without empty ones.
pub open spec fn bib_names_spec(tex: Seq<char>) -> Seq<Seq<char>> {
    let bibs = cmd_args_scan(tex, 0, "bibliography"@);
    let res = cmd_args_scan(tex, 0, "addbibresource"@);
    Seq::new(bibs.len(), |k: int| group_keys(bibs[k])).flatten() + non_empty_trimmed_args(res)
}

/// The trimmed arguments that are not empty.
pub open spec fn non_empty_trimmed_args(args: Seq<Seq<char>>) -> Seq<Seq<char>>
    decreases args.len(),
{
    if args.len() == 0 {
        seq![]
    } else {
        let prev = non_empty_trimmed_args(args.drop_last());
        let t = trim(args.last());
        if t.len() == 0 {
            prev
        } else {
            prev.push(t)
        }
    }
}

/// The included file names: the trimmed, non-empty arguments of
/// `\include{}`, then of `\input{}`, then of `\subfile{}`.
pub open spec fn include_names_spec(tex: Seq<char>) -> Seq<Seq<char>> {
    non_empty_trimmed_args(cmd_args_scan(tex, 0, "include"@))
        + non_empty_trimmed_args(cmd_args_scan(tex, 0, "input"@))
        + non_empty_trimmed_args(cmd_args_scan(tex, 0, "subfile"@))
}

fn trimmed_args(args: &Vec<Vec<char>>) -> (r: Vec<Vec<char>>)
    ensures
        keys_view(r@) == non_empty_trimmed_args(keys_view(args@)),
{
    let ghost av = keys_view(args@);
    let mut out: Vec<Vec<char>> = Vec::new();
    let mut i: usize = 0;
    while i < args.len()
        invariant
            i <= args@.len(),
            av == keys_view(args@),
            keys_view(out@) == non_empty_trimmed_args(av.take(i as int)),
        decreases args@.len() - i,
    {
        assert(av.take(i + 1).drop_last() =~= av.take(i as int));
        assert(av.take(i + 1).last() == av[i as int]);
        let t = trim_chars(args[i].as_slice());
        if t.len() > 0 {
            out.push(t);
        }
        i += 1;
        assert(keys_view(out@) =~= non_empty_trimmed_args(av.take(i as int)));
    }
    assert(av.take(av.len() as int) =~= av);
    out
}

/// The bibliography file names that a LaTeX text names (see `bib_names_spec`).
pub fn find_bib_names(tex: &[char]) -> (r: Vec<Vec<char>>)
    ensures
        keys_view(r@) == bib_names_spec(tex@),
{
    let bib_cmd = chars_of("bibliography");
    let bibs = find_command_brace_args(tex, bib_cmd.as_slice());
    let ghost bv = cmd_args_scan(tex@, 0, "bibliography"@);
    let mut out: Vec<Vec<char>> = Vec::new();
    let mut k: usize = 0;
    while k < bibs.len()
        invariant
            k <= bibs@.len(),
            bibs@.len() == bv.len(),
            bv == cmd_args_scan(tex@, 0, "bibliography"@),
            forall|j: int| 0 <= j < bibs@.len() ==> (#[trigger] bibs@[j])@ == bv[j],
            keys_view(out@) == Seq::new(k as nat, |j: int| group_keys(bv[j])).flatten(),
        decreases bibs@.len() - k,
    {
        let mut names = keys_of_group(bibs[k].as_slice());
        proof {
            let f = |j: int| group_keys(bv[j]);
            assert(Seq::new((k + 1) as nat, f) =~= Seq::new(k as nat, f).push(f(k as int)));
            Seq::new(k as nat, f).lemma_flatten_push(f(k as int));
            assert(keys_view(names@) =~= group_keys(bv[k as int]));
            assert(keys_view(out@ + names@) =~= keys_view(out@) + keys_view(names@));
        }
        out.append(&mut names);
        k += 1;
    }
    proof {
        assert(Seq::new(k as nat, |j: int| group_keys(bv[j])) =~= Seq::new(bv.len(), |j: int| group_keys(bv[j])));
    }
    let res_cmd = chars_of("addbibresource");
    let res = find_command_brace_args(tex, res_cmd.as_slice());
    assert(keys_view(res@) =~= cmd_args_scan(tex@, 0, "addbibresource"@));
    let mut more = trimmed_args(&res);
    proof {
        assert(keys_view(out@ + more@) =~= keys_view(out@) + keys_view(more@));
    }
    out.append(&mut more);
    out
}

/// The file names that a LaTeX text includes (see `include_names_spec`).
pub fn find_include_names(tex: &[char]) -> (r: Vec<Vec<char>>)
    ensures
        keys_view(r@) == include_names_spec(tex@),
{
    let include_cmd = chars_of("include");
    let includes = find_command_brace_args(tex, include_cmd.as_slice());
    assert(keys_view(includes@) =~= cmd_args_scan(tex@, 0, "include"@));
    let mut out = trimmed_args(&includes);
    let input_cmd = chars_of("input");
    let inputs = find_command_brace_args(tex, input_cmd.as_slice());
    assert(keys_view(inputs@) =~= cmd_args_scan(tex@, 0, "input"@));
    let mut more = trimmed_args(&inputs);
    assert(keys_view(out@ + more@) =~= keys_view(out@) + keys_view(more@));
    out.append(&mut more);
    let subfile_cmd = chars_of("subfile");
    let subfiles = find_command_brace_args(tex, subfile_cmd.as_slice());
    assert(keys_view(subfiles@) =~= cmd_args_scan(tex@, 0, "subfile"@));
    let mut rest = trimmed_args(&subfiles);
    assert(keys_view(out@ + rest@) =~= keys_view(out@) + keys_view(rest@));
    out.append(&mut rest);
    out
}

/// The name of the backup of a file: its name with `.bak` added, or
/// `backup.bak` for a path without a file name.
pub open spec fn backup_name_spec(file_name: Option<Seq<char>>) -> Seq<char> {
    match file_name {
        Some(n) => n + ".bak"@,
        None => "backup"@ + ".bak"@,
    }
}

/// The name of the backup of a file (see `backup_name_spec`).
pub fn backup_name(file_name: Option<Vec<char>>) -> (r: Vec<char>)
    ensures
        r@ == backup_name_spec(match file_name {
            Some(n) => Some(n@),
            None => None,
        }),
{
    let mut out = match file_name {
        Some(n) => n,
        None => chars_of("backup"),
    };
    append_lit(&mut out, ".bak");
    out
}

/// The positional arguments: those that do not start with `--`.
pub open spec fn positional_args(args: Seq<Seq<char>>) -> Seq<Seq<char>>
    decreases args.len(),
{
    if args.len() == 0 {
        seq![]
    } else {
        let prev = positional_args(args.drop_last());
        if has_prefix(args.last(), "--"@) {
            prev
        } else {
            prev.push(args.last())
        }
    }
}

/// The input path among the arguments after the program name: the only
/// positional argument, or nothing when there is none or more than one.
pub fn input_path_from_args(args: &Vec<Vec<char>>) -> (r: Option<Vec<char>>)
    ensures
        r is Some <==> positional_args(keys_view(args@)).len() == 1,
        r matches Some(p) ==> p@ == positional_args(keys_view(args@))[0],
{
    let ghost av = keys_view(args@);
    let mut found: Vec<Vec<char>> = Vec::new();
    let mut i: usize = 0;
    while i < args.len()
        invariant
            i <= args@.len(),
            av == keys_view(args@),
            keys_view(found@) == positional_args(av.take(i as int)),
        decreases args@.len() - i,
    {
        assert(av.take(i + 1).drop_last() =~= av.take(i as int));
        assert(av.take(i + 1).last() == av[i as int]);
        if !starts_with_lit(args[i].as_slice(), "--") {
            let a = copy_range(args[i].as_slice(), 0, args[i].len());
            assert(a@ =~= av[i as int]);
            found.push(a);
            assert(keys_view(found@) =~= positional_args(av.take(i + 1)));
        }
        i += 1;
    }
    assert(av.take(av.len() as int) =~= av);
    if found.len() == 1 {
        let p = copy_range(found[0].as_slice(), 0, found[0].len());
        assert(p@ =~= keys_view(found@)[0]);
        Some(p)
    } else {
        None
    }
}

/// Whether one of the arguments is exactly `name`.
pub fn arg_present(args: &Vec<Vec<char>>, name: &[char]) -> (r: bool)
    ensures
        r == keys_view(args@).contains(name@),
{
    crate::keys::contains_key(args, name)
}

} // verus!
