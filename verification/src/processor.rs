//! Deciding which command-line arguments name transformable source files
//! and where each one's transformed counterpart is written. The caller
//! checks the file system and hands in plain values; everything here is
//! pure string logic over paths.

use vstd::prelude::*;

verus! {

use crate::parser::BracelessParser;

/// Index just past the last `/` of `p`, or `0` if `p` has none: the length
/// of the directory prefix.
pub open spec fn dir_prefix_len(p: Seq<char>) -> nat
    decreases p.len(),
{
    if p.len() == 0 {
        0
    } else if p.last() == '/' {
        p.len()
    } else {
        dir_prefix_len(p.drop_last())
    }
}

/// The file name of `p`: everything after its last `/`.
pub open spec fn file_name_of(p: Seq<char>) -> Seq<char> {
    p.skip(dir_prefix_len(p) as int)
}

/// Position of the last `.` of `f` that is not its first character, or `0`
/// if there is none. A leading dot names a hidden file, not an extension.
pub open spec fn last_dot(f: Seq<char>) -> nat
    decreases f.len(),
{
    if f.len() <= 1 {
        0
    } else if f.last() == '.' {
        (f.len() - 1) as nat
    } else {
        last_dot(f.drop_last())
    }
}

/// The extension of `p`: what follows the last `.` of its file name, where
/// that dot is embedded (not the file name's first character).
pub open spec fn extension_of(p: Seq<char>) -> Option<Seq<char>> {
    let f = file_name_of(p);
    let d = last_dot(f);
    if d == 0 {
        None
    } else {
        Some(f.skip(d + 1 as int))
    }
}

/// The stem of `p`'s file name: the file name up to the extension's dot,
/// or the whole file name if there is no extension.
pub open spec fn stem_of(p: Seq<char>) -> Seq<char> {
    let f = file_name_of(p);
    let d = last_dot(f);
    if d == 0 {
        f
    } else {
        f.take(d as int)
    }
}

/// Where the transformed counterpart of `p` is written: a hidden `.cpp`
/// file beside it, sharing its directory and stem. The downstream
/// toolchain's linker rejects unknown source extensions, hence `.cpp`.
pub open spec fn temp_path_spec(p: Seq<char>) -> Seq<char> {
    p.take(dir_prefix_len(p) as int) + seq!['.'] + stem_of(p) + seq!['.', 'c', 'p', 'p']
}

/// A flag-like argument: one that starts with `-`.
pub open spec fn is_flag_arg(a: Seq<char>) -> bool {
    a.len() > 0 && a[0] == '-'
}

/// An argument whose file is read, transformed and replaced: not
/// flag-like, an existing regular file (the caller checked), and carrying
/// the braceless-syntax extension `bpp`.
pub open spec fn eligible_spec(arg: Seq<char>, is_file: bool) -> bool {
    &&& !is_flag_arg(arg)
    &&& is_file
    &&& extension_of(arg) == Some(seq!['b', 'p', 'p'])
}

/// The temporary paths planned for `args`, in argument order.
pub open spec fn planned_temps(args: Seq<Seq<char>>, flags: Seq<bool>) -> Seq<Seq<char>>
    decreases args.len(),
{
    if args.len() == 0 || flags.len() == 0 {
        Seq::empty()
    } else {
        planned_temps(args.drop_last(), flags.drop_last()) + (if eligible_spec(
            args.last(),
            flags.last(),
        ) {
            seq![temp_path_spec(args.last())]
        } else {
            Seq::empty()
        })
    }
}

/// Index just past the last `/` of `p`, or `0` if `p` has none.
fn scan_dir_prefix(p: &str) -> (r: usize)
    ensures
        r == dir_prefix_len(p@),
        r <= p@.len(),
{
    let n: usize = p.unicode_len();
    let mut i: usize = n;
    proof {
        assert(p@.take(n as int) =~= p@);
    }
    while i > 0
        invariant
            i <= n,
            n == p@.len(),
            dir_prefix_len(p@) == dir_prefix_len(p@.take(i as int)),
        decreases i,
    {
        let c = p.get_char(i - 1);
        proof {
            assert(p@.take(i as int).last() == p@[i - 1]);
        }
        if c == '/' {
            proof {
                assert(dir_prefix_len(p@.take(i as int)) == i);
            }
            return i;
        }
        proof {
            assert(p@.take(i as int).drop_last() =~= p@.take(i - 1));
        }
        i = i - 1;
    }
    proof {
        assert(p@.take(0) =~= Seq::<char>::empty());
    }
    0
}

/// Position of the last embedded `.` of `f`, or `0` if there is none.
fn scan_last_dot(f: &str) -> (r: usize)
    ensures
        r == last_dot(f@),
        r < f@.len() || r == 0,
{
    let n: usize = f.unicode_len();
    let mut i: usize = n;
    proof {
        assert(f@.take(n as int) =~= f@);
    }
    while i > 1
        invariant
            i <= n,
            n == f@.len(),
            last_dot(f@) == last_dot(f@.take(i as int)),
        decreases i,
    {
        let c = f.get_char(i - 1);
        proof {
            assert(f@.take(i as int).last() == f@[i - 1]);
        }
        if c == '.' {
            proof {
                assert(last_dot(f@.take(i as int)) == i - 1);
            }
            return i - 1;
        }
        proof {
            assert(f@.take(i as int).drop_last() =~= f@.take(i - 1));
        }
        i = i - 1;
    }
    0
}

/// Decides, for each argument of an invocation, whether it names an
/// eligible source file and where its transformed counterpart belongs; the
/// temporary paths it plans are remembered for later cleanup by the caller.
pub struct FileProcessor {
    parser: BracelessParser,
    temp_files: Vec<String>,
}

impl FileProcessor {
    /// The temporary paths planned so far.
    pub closed spec fn temp_paths(&self) -> Seq<Seq<char>> {
        self.temp_files.deep_view()
    }

    pub fn new() -> (r: Self)
        ensures
            r.temp_paths() == Seq::<Seq<char>>::empty(),
    {
        let r = FileProcessor { parser: BracelessParser::new(), temp_files: Vec::new() };
        proof {
            assert(r.temp_files.deep_view() =~= Seq::<Seq<char>>::empty());
        }
        r
    }

    /// The planned temporary paths, for the caller's cleanup step.
    pub fn temp_files(&self) -> (r: &Vec<String>)
        ensures
            r.deep_view() == self.temp_paths(),
    {
        &self.temp_files
    }

    /// The argument as a candidate path: `None` for flag-like arguments and
    /// for paths that are no existing regular file (`exists_as_file`, which
    /// the caller determines).
    pub fn extract_source_file(&self, arg: &str, exists_as_file: bool) -> (r: Option<String>)
        ensures
            r is Some <==> (!is_flag_arg(arg@) && exists_as_file),
            r matches Some(p) ==> p@ == arg@,
    {
        let n: usize = arg.unicode_len();
        if n > 0 && arg.get_char(0) == '-' {
            return None;
        }
        if !exists_as_file {
            return None;
        }
        Some(String::from_str(arg))
    }

    /// Whether `path` carries the braceless-syntax extension.
    pub fn is_bpp_file(&self, path: &str) -> (r: bool)
        ensures
            r == (extension_of(path@) == Some(seq!['b', 'p', 'p'])),
    {
        let n: usize = path.unicode_len();
        let ds = scan_dir_prefix(path);
        let fname = path.substring_char(ds, n);
        proof {
            assert(fname@ =~= file_name_of(path@));
        }
        let m = fname.unicode_len();
        let d = scan_last_dot(fname);
        if d == 0 {
            return false;
        }
        if m - d - 1 != 3 {
            proof {
                assert(file_name_of(path@).skip(d + 1).len() == m - d - 1);
            }
            return false;
        }
        let r = fname.get_char(d + 1) == 'b' && fname.get_char(d + 2) == 'p' && fname.get_char(
            d + 3,
        ) == 'p';
        proof {
            let ext = file_name_of(path@).skip(d + 1);
            assert(ext.len() == 3);
            assert(ext[0] == fname@[d + 1] && ext[1] == fname@[d + 2] && ext[2] == fname@[d + 3]);
            if r {
                assert(ext =~= seq!['b', 'p', 'p']);
            } else {
                assert(ext != seq!['b', 'p', 'p']);
            }
        }
        r
    }

    /// The deterministic temporary path for `path`: same directory, same
    /// stem, hidden, with the `.cpp` extension.
    pub fn create_temp_path(&self, path: &str) -> (r: String)
        ensures
            r@ == temp_path_spec(path@),
    {
        let n: usize = path.unicode_len();
        let ds = scan_dir_prefix(path);
        let prefix = path.substring_char(0, ds);
        let fname = path.substring_char(ds, n);
        proof {
            assert(prefix@ =~= path@.take(ds as int));
            assert(fname@ =~= file_name_of(path@));
        }
        let m = fname.unicode_len();
        let d = scan_last_dot(fname);
        let stem = if d == 0 {
            fname
        } else {
            fname.substring_char(0, d)
        };
        proof {
            assert(fname@.subrange(0, fname@.len() as int) =~= fname@);
            assert(stem@ =~= stem_of(path@));
        }
        let mut out = String::from_str(prefix);
        out.append(".");
        out.append(stem);
        out.append(".cpp");
        proof {
            reveal_strlit(".");
            reveal_strlit(".cpp");
            assert("."@ =~= seq!['.']);
            assert(".cpp"@ =~= seq!['.', 'c', 'p', 'p']);
        }
        out
    }

    /// The pure core of handling one eligible file: transform its whole
    /// content. Reading the file and writing the result are the caller's
    /// I/O.
    pub fn process_content(&self, content: &str) -> (r: String)
        ensures
            r@ == crate::parser::transform_spec(content@),
    {
        self.parser.process(content)
    }

    /// Replace each eligible argument by its planned temporary path, leave
    /// every other argument unchanged, and remember the planned paths in
    /// order. The caller performs the reads and writes behind them.
    pub fn process_args(&mut self, args: Vec<String>, is_file: Vec<bool>) -> (r: Vec<String>)
        requires
            is_file@.len() == args@.len(),
        ensures
            r@.len() == args@.len(),
            forall|i: int|
                0 <= i < args@.len() ==> r.deep_view()[i] == if eligible_spec(
                    args.deep_view()[i],
                    is_file@[i],
                ) {
                    temp_path_spec(args.deep_view()[i])
                } else {
                    args.deep_view()[i]
                },
            final(self).temp_paths() == old(self).temp_paths() + planned_temps(
                args.deep_view(),
                is_file@,
            ),
    {
        let ghost tp0 = self.temp_paths();
        let ghost av = args.deep_view();
        let ghost fv = is_file@;
        let n: usize = args.len();
        let mut modified: Vec<String> = Vec::new();
        let mut i: usize = 0;
        proof {
            assert(planned_temps(av.take(0), fv.take(0)) =~= Seq::<Seq<char>>::empty());
            assert(tp0 + planned_temps(av.take(0), fv.take(0)) =~= tp0);
        }
        while i < n
            invariant
                i <= n,
                n == args.len(),
                av == args.deep_view(),
                fv == is_file@,
                av.len() == n,
                fv.len() == n,
                modified@.len() == i,
                forall|j: int|
                    0 <= j < i ==> modified.deep_view()[j] == if eligible_spec(av[j], fv[j]) {
                        temp_path_spec(av[j])
                    } else {
                        av[j]
                    },
                self.temp_paths() == tp0 + planned_temps(av.take(i as int), fv.take(i as int)),
            decreases n - i,
        {
            let arg: &String = &args[i];
            proof {
                assert(arg@ == av[i as int]);
                assert(av.take(i + 1).drop_last() =~= av.take(i as int));
                assert(fv.take(i + 1).drop_last() =~= fv.take(i as int));
                assert(av.take(i + 1).last() == av[i as int]);
                assert(fv.take(i + 1).last() == fv[i as int]);
            }
            let flag_free = match self.extract_source_file(arg.as_str(), is_file[i]) {
                Some(_) => true,
                None => false,
            };
            let ghost mprev = modified.deep_view();
            let ghost tprev = self.temp_paths();
            if flag_free && self.is_bpp_file(arg.as_str()) {
                let temp = self.create_temp_path(arg.as_str());
                modified.push(temp.clone());
                self.temp_files.push(temp);
                proof {
                    assert(eligible_spec(av[i as int], fv[i as int]));
                    assert(modified.deep_view() =~= mprev + seq![temp_path_spec(av[i as int])]);
                    assert(self.temp_paths() =~= tprev + seq![temp_path_spec(av[i as int])]);
                    assert(tprev + seq![temp_path_spec(av[i as int])] =~= tp0 + planned_temps(
                        av.take(i + 1),
                        fv.take(i + 1),
                    ));
                }
            } else {
                modified.push(arg.clone());
                proof {
                    assert(!eligible_spec(av[i as int], fv[i as int]));
                    assert(modified.deep_view() =~= mprev + seq![av[i as int]]);
                    assert(planned_temps(av.take(i + 1), fv.take(i + 1)) =~= planned_temps(
                        av.take(i as int),
                        fv.take(i as int),
                    ));
                }
            }
            i = i + 1;
        }
        proof {
            assert(av.take(n as int) =~= av);
            assert(fv.take(n as int) =~= fv);
        }
        modified
    }
}

} // verus!
