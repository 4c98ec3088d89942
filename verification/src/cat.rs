use vstd::prelude::*;
use crate::text::{chars_vec, parse_u32, parse_u32_in};

verus! {

/// Which of the tool's options are on.
#[derive(PartialEq, Eq, Structural, Clone, Copy, Debug)]
pub struct CatFlags {
    /// `n`: number the lines.
    pub number: bool,
    /// `h`: print only the first lines.
    pub head: bool,
    /// `t`: print only the last lines.
    pub tail: bool,
}

/// The options of a run: the flags and how many lines `h` or `t` keep.
#[derive(PartialEq, Eq, Structural, Clone, Copy, Debug)]
pub struct CatOptions {
    pub flags: CatFlags,
    pub count: u32,
}

/// Why the arguments were refused.
#[derive(PartialEq, Eq, Structural, Clone, Copy, Debug)]
pub enum CatArgsError {
    /// Neither a file name alone nor a file name with options.
    Usage,
    /// `h` or `t` was given without a count.
    MissingCount,
    /// The count is not a `u32`.
    BadCount,
}

/// How many lines `h` and `t` keep when the count is 0.
pub const DEFAULT_COUNT: u32 = 6;

/// The arguments as character sequences (the program's name first).
pub open spec fn args_view(args: Seq<String>) -> Seq<Seq<char>> {
    args.map_values(|s: String| s@)
}

/// What the arguments ask for: a file name alone prints the file; a file
/// name and an option word turn on `n` if the word holds an 'n', and `h` if
/// it holds an 'h' or else `t` if it holds a 't', the last two with the count
/// that the next argument gives (6 where it gives 0).
pub open spec fn cat_args(a: Seq<Seq<char>>) -> Result<CatOptions, CatArgsError> {
    if a.len() == 3 || a.len() == 4 {
        let number = a[2].contains('n');
        let head = a[2].contains('h');
        let tail = !head && a[2].contains('t');
        if head || tail {
            if a.len() == 3 {
                Err(CatArgsError::MissingCount)
            } else {
                match parse_u32(a[3]) {
                    Some(v) => Ok(
                        CatOptions {
                            flags: CatFlags { number, head, tail },
                            count: if v == 0 {
                                DEFAULT_COUNT
                            } else {
                                v as u32
                            },
                        },
                    ),
                    None => Err(CatArgsError::BadCount),
                }
            }
        } else {
            Ok(CatOptions { flags: CatFlags { number, head, tail }, count: 0 })
        }
    } else if a.len() == 2 {
        Ok(CatOptions { flags: CatFlags { number: false, head: false, tail: false }, count: 0 })
    } else {
        Err(CatArgsError::Usage)
    }
}

/// Does `s` hold the character `c`?
pub fn contains_char(s: &str, c: char) -> (r: bool)
    ensures
        r == s@.contains(c),
{
    let v = chars_vec(s);
    let mut i: usize = 0;
    while i < v.len()
        invariant
            0 <= i <= v.len(),
            v@ == s@,
            forall|k: int| 0 <= k < i ==> v@[k] != c,
        decreases v.len() - i,
    {
        if v[i] == c {
            return true;
        }
        i = i + 1;
    }
    false
}

/// Reads the options out of the command line.
pub fn parse_cat_args(args: &Vec<String>) -> (r: Result<CatOptions, CatArgsError>)
    ensures
        r == cat_args(args_view(args@)),
        (args.len() == 3 || args.len() == 4) && r is Ok ==> {
            &&& r.unwrap().flags.number == args@[2]@.contains('n')
            &&& r.unwrap().flags.head == args@[2]@.contains('h')
            &&& r.unwrap().flags.tail == (!args@[2]@.contains('h') && args@[2]@.contains('t'))
        },
        args.len() == 2 ==> r == Ok::<CatOptions, CatArgsError>(
            CatOptions { flags: CatFlags { number: false, head: false, tail: false }, count: 0 },
        ),
        args.len() < 2 || args.len() > 4 ==> r == Err::<CatOptions, CatArgsError>(
            CatArgsError::Usage,
        ),
{
    proof {
        lemma_cat_args_flags(args_view(args@));
    }
    let ghost a = args_view(args@);
    if args.len() == 3 || args.len() == 4 {
        assert(a[2] == args@[2]@);
        let number = contains_char(args[2].as_str(), 'n');
        let head = contains_char(args[2].as_str(), 'h');
        let tail = !head && contains_char(args[2].as_str(), 't');
        let flags = CatFlags { number, head, tail };
        if head || tail {
            if args.len() == 3 {
                return Err(CatArgsError::MissingCount);
            }
            assert(a[3] == args@[3]@);
            let digits = chars_vec(args[3].as_str());
            assert(digits@.subrange(0, digits@.len() as int) =~= a[3]);
            match parse_u32_in(&digits, 0, digits.len()) {
                Some(v) => {
                    let count = if v == 0 {
                        DEFAULT_COUNT
                    } else {
                        v
                    };
                    Ok(CatOptions { flags, count })
                },
                None => Err(CatArgsError::BadCount),
            }
        } else {
            Ok(CatOptions { flags, count: 0 })
        }
    } else if args.len() == 2 {
        Ok(CatOptions { flags: CatFlags { number: false, head: false, tail: false }, count: 0 })
    } else {
        Err(CatArgsError::Usage)
    }
}

/// How a line of the file is printed.
#[derive(PartialEq, Eq, Structural, Clone, Copy, Debug)]
pub struct LinePrint {
    /// Its number is printed before it.
    pub numbered: bool,
    /// The line itself is printed.
    pub shown: bool,
}

/// Which part of line `line_num` (counted from 1) of a file of `line_count`
/// lines is printed: with `h` the first `count` lines, with `t` the last
/// `count`, else all; with `n` the number of each printed line, and of every
/// line when neither `h` nor `t` is on.
pub fn line_print(opts: CatOptions, line_num: u32, line_count: u32) -> (p: LinePrint)
    requires
        opts.flags.tail ==> opts.count <= line_count,
    ensures
        p.shown == (if opts.flags.head {
            line_num <= opts.count
        } else if opts.flags.tail {
            line_num > line_count - opts.count
        } else {
            true
        }),
        p.numbered == (opts.flags.number && !(opts.flags.head && line_num > opts.count) && !(
        opts.flags.tail && line_num <= line_count - opts.count)),
{
    let f = opts.flags;
    let n = opts.count;
    let numbered = f.number && !(f.head && line_num > n) && !(f.tail && line_num <= line_count - n);
    let shown = if f.head {
        line_num <= n
    } else if f.tail {
        line_num > line_count - n
    } else {
        true
    };
    LinePrint { numbered, shown }
}

/// With `n` on, a line carries its number exactly when the line itself is
/// printed.
pub proof fn lemma_shown_lines_are_numbered(opts: CatOptions, line_num: u32, line_count: u32)
    requires
        opts.flags.number,
        opts.flags.tail ==> opts.count <= line_count,
        !(opts.flags.head && opts.flags.tail),
    ensures
        (if opts.flags.head {
            line_num <= opts.count
        } else if opts.flags.tail {
            line_num > line_count - opts.count
        } else {
            true
        }) == (opts.flags.number && !(opts.flags.head && line_num > opts.count) && !(
        opts.flags.tail && line_num <= line_count - opts.count)),
{
}

/// The options never turn on both `h` and `t`, and `h` or `t` always keep
/// at least one line.
pub proof fn lemma_cat_args_consistent(a: Seq<Seq<char>>)
    ensures
        cat_args(a) matches Ok(o) ==> !(o.flags.head && o.flags.tail) && ((o.flags.head
            || o.flags.tail) ==> o.count >= 1),
{
}

/// The option word decides the flags on its own: `n` is on exactly when the
/// word holds an 'n', whatever else it holds; `h` exactly when it holds an
/// 'h'; `t` exactly when it holds a 't' and no 'h'. A file name alone turns
/// nothing on, and any other number of arguments is refused.
pub proof fn lemma_cat_args_flags(a: Seq<Seq<char>>)
    ensures
        (a.len() == 3 || a.len() == 4) && cat_args(a) is Ok ==> {
            &&& cat_args(a).unwrap().flags.number == a[2].contains('n')
            &&& cat_args(a).unwrap().flags.head == a[2].contains('h')
            &&& cat_args(a).unwrap().flags.tail == (!a[2].contains('h') && a[2].contains('t'))
        },
        a.len() == 2 ==> cat_args(a) == Ok::<CatOptions, CatArgsError>(
            CatOptions { flags: CatFlags { number: false, head: false, tail: false }, count: 0 },
        ),
        a.len() < 2 || a.len() > 4 ==> cat_args(a) == Err::<CatOptions, CatArgsError>(
            CatArgsError::Usage,
        ),
{
}

} // verus!
