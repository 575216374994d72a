//! Command-line plumbing that is pure computation: splitting the argument
//! list between the compiler front-end and this tool, and defaulting the
//! sysroot flag.  Reading the process arguments and discovering the
//! sysroot stay with the caller.

use vstd::prelude::*;
use vstd::string::*;

verus! {

/// The views of a list of strings.
pub open spec fn deep(s: Seq<String>) -> Seq<Seq<char>> {
    s.map_values(|x: String| x@)
}

/// `i` is the first separator position: the first `"--"` after the leading
/// program name.
pub open spec fn first_dashdash(vs: Seq<Seq<char>>, i: int) -> bool {
    &&& 1 <= i < vs.len()
    &&& vs[i] == "--"@
    &&& forall|j: int| 1 <= j < i ==> vs[j] != "--"@
}

/// Split an argument list at the first `"--"`: everything before it (the
/// program name included) is for the compiler front-end, everything after
/// it is for this tool.  Without a separator every argument is for the
/// front-end.
pub fn parse_arguments(args: Vec<String>) -> (r: (Vec<String>, Vec<String>))
    ensures
        (forall|j: int| 1 <= j < args@.len() ==> deep(args@)[j] != "--"@) ==> deep(r.0@) == deep(
            args@,
        ) && r.1@.len() == 0,
        forall|i: int|
            first_dashdash(deep(args@), i) ==> deep(r.0@) == deep(args@).take(i) && deep(r.1@)
                == deep(args@).skip(i + 1),
{
    let separator = String::from_str("--");
    let mut rustc_args: Vec<String> = Vec::new();
    let mut tool_args: Vec<String> = Vec::new();
    let mut after_dashdash = false;
    let mut i: usize = 0;
    let ghost vs = deep(args@);
    while i < args.len()
        invariant
            vs == deep(args@),
            separator@ == "--"@,
            i <= args@.len(),
            !after_dashdash ==> {
                &&& forall|j: int| 1 <= j < i ==> vs[j] != "--"@
                &&& deep(rustc_args@) == vs.take(i as int)
                &&& tool_args@.len() == 0
            },
            after_dashdash ==> exists|d: int|
                #[trigger] first_dashdash(vs, d) && d < i && deep(rustc_args@) == vs.take(d)
                    && deep(tool_args@) == vs.subrange(d + 1, i as int),
        decreases args@.len() - i,
    {
        let arg = args[i].clone();
        if i > 0 && !after_dashdash && arg.eq(&separator) {
            after_dashdash = true;
            proof {
                assert(first_dashdash(vs, i as int)) by {
                    assert(vs[i as int] == args@[i as int]@);
                }
                assert(deep(tool_args@) =~= vs.subrange(i + 1, i + 1));
            }
        } else {
            if after_dashdash {
                let ghost pre_tool = tool_args@;
                proof {
                    assert(arg@ == vs[i as int]);
                }
                tool_args.push(arg);
                proof {
                    let d = choose|d: int|
                        #[trigger] first_dashdash(vs, d) && d < i && deep(rustc_args@) == vs.take(
                            d,
                        ) && deep(pre_tool) == vs.subrange(d + 1, i as int);
                    assert(deep(tool_args@) =~= vs.subrange(d + 1, i + 1));
                    assert(first_dashdash(vs, d) && d < i + 1 && deep(rustc_args@) == vs.take(d)
                        && deep(tool_args@) == vs.subrange(d + 1, i + 1));
                }
            } else {
                proof {
                    assert(arg@ == vs[i as int]);
                }
                rustc_args.push(arg);
                proof {
                    assert(deep(rustc_args@) =~= vs.take(i + 1));
                }
            }
        }
        i = i + 1;
    }
    proof {
        if after_dashdash {
            let d = choose|d: int|
                #[trigger] first_dashdash(vs, d) && d < args@.len() && deep(rustc_args@)
                    == vs.take(d) && deep(tool_args@) == vs.subrange(d + 1, args@.len() as int);
            assert forall|i2: int| first_dashdash(vs, i2) implies deep(rustc_args@) == vs.take(
                i2,
            ) && deep(tool_args@) == vs.skip(i2 + 1) by {
                if i2 < d {
                    assert(vs[i2] == "--"@);
                } else if d < i2 {
                    assert(vs[d] == "--"@);
                }
                assert(i2 == d);
                assert(vs.skip(d + 1) =~= vs.subrange(d + 1, vs.len() as int));
            }
            assert(vs[d] == "--"@ && 1 <= d < vs.len());
        } else {
            assert(vs.take(vs.len() as int) =~= vs);
            assert forall|i2: int| first_dashdash(vs, i2) implies deep(rustc_args@) == vs.take(
                i2,
            ) && deep(tool_args@) == vs.skip(i2 + 1) by {
                assert(vs[i2] != "--"@);
            }
        }
    }
    (rustc_args, tool_args)
}

/// `"--sysroot"` occurs in the argument views.
pub open spec fn has_sysroot_flag(vs: Seq<Seq<char>>) -> bool {
    exists|i: int| 0 <= i < vs.len() && vs[i] == "--sysroot"@
}

/// Append the default sysroot where the caller discovered one and the
/// arguments do not already carry a `--sysroot` flag.
pub fn check_sysroot(rustc_args: &mut Vec<String>, sysroot: Option<String>)
    ensures
        match sysroot {
            Some(s) => if has_sysroot_flag(deep(old(rustc_args)@)) {
                deep(final(rustc_args)@) == deep(old(rustc_args)@)
            } else {
                deep(final(rustc_args)@) == deep(old(rustc_args)@) + seq!["--sysroot"@, s@]
            },
            None => deep(final(rustc_args)@) == deep(old(rustc_args)@),
        },
{
    match sysroot {
        Some(s) => {
            let flag = String::from_str("--sysroot");
            let mut found = false;
            let mut i: usize = 0;
            while i < rustc_args.len()
                invariant
                    rustc_args@ == old(rustc_args)@,
                    flag@ == "--sysroot"@,
                    i <= rustc_args@.len(),
                    found == exists|j: int|
                        0 <= j < i && #[trigger] deep(rustc_args@)[j] == "--sysroot"@,
                decreases rustc_args@.len() - i,
            {
                if rustc_args[i].eq(&flag) {
                    found = true;
                    proof {
                        assert(deep(rustc_args@)[i as int] == "--sysroot"@);
                    }
                }
                i = i + 1;
            }
            if !found {
                proof {
                    assert(!has_sysroot_flag(deep(rustc_args@)));
                }
                rustc_args.push(flag);
                rustc_args.push(s);
                proof {
                    assert(deep(rustc_args@) =~= deep(old(rustc_args)@) + seq![
                        "--sysroot"@,
                        s@,
                    ]);
                }
            }
        },
        None => {},
    }
}

} // verus!
