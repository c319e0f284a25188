use vstd::prelude::*;

use crate::text::str_eq;

verus! {

/// What this process launch is supposed to do, read from the argument
/// vector before any window exists.
///
/// `new_window` is set by the OS entry points (jump list, context menu,
/// dock menu, desktop action); `directory`, when set, is the folder in which
/// a local shell session should start.
#[derive(Debug)]
pub struct LaunchIntent {
    pub new_window: bool,
    pub directory: Option<String>,
}

/// The flag that asks for a new window.
pub open spec fn new_window_flag() -> Seq<char> {
    "--new-window"@
}

/// The flag whose following argument names the working directory.
pub open spec fn dir_flag() -> Seq<char> {
    "--dir"@
}

/// The intent read from `args[i..]`, starting from the values already
/// gathered: `--new-window` sets the flag, `--dir X` takes `X` as the
/// directory (a later one replacing an earlier one), and anything else,
/// including a trailing `--dir` with nothing after it, is skipped.
pub open spec fn scan_intent(
    args: Seq<Seq<char>>,
    i: int,
    new_window: bool,
    directory: Option<Seq<char>>,
) -> (bool, Option<Seq<char>>)
    decreases args.len() - i,
{
    if i >= args.len() || i < 0 {
        (new_window, directory)
    } else if args[i] == new_window_flag() {
        scan_intent(args, i + 1, true, directory)
    } else if args[i] == dir_flag() && i + 1 < args.len() {
        scan_intent(args, i + 2, new_window, Some(args[i + 1]))
    } else {
        scan_intent(args, i + 1, new_window, directory)
    }
}

/// The intent of a whole argument vector; `args[0]` is the program itself
/// and is never read as a flag.
pub open spec fn intent_of(args: Seq<Seq<char>>) -> (bool, Option<Seq<char>>) {
    scan_intent(args, 1, false, None)
}

impl LaunchIntent {
    /// The intent as plain values: the flag and the directory's characters.
    pub open spec fn spec_view(&self) -> (bool, Option<Seq<char>>) {
        (
            self.new_window,
            match self.directory {
                Some(d) => Some(d@),
                None => None,
            },
        )
    }
}

/// Reads the launch intent from the process arguments.
pub fn parse(args: &[String]) -> (intent: LaunchIntent)
    ensures
        intent.spec_view() == intent_of(args.deep_view()),
{
    let ghost all = args.deep_view();
    let mut directory: Option<String> = None;
    let mut new_window = false;
    let mut i: usize = 1;
    while i < args.len()
        invariant
            all == args.deep_view(),
            all.len() == args.len(),
            i >= 1,
            scan_intent(
                all,
                i as int,
                new_window,
                match directory {
                    Some(d) => Some(d@),
                    None => None,
                },
            ) == intent_of(all),
        decreases args.len() - i,
    {
        assert(all[i as int] == args[i as int]@);
        if str_eq(args[i].as_str(), "--new-window") {
            new_window = true;
        } else if str_eq(args[i].as_str(), "--dir") && i + 1 < args.len() {
            assert(all[i + 1] == args[i + 1]@);
            directory = Some(args[i + 1].clone());
            i += 1;
        }
        i += 1;
    }
    LaunchIntent { new_window, directory }
}

/// From position `i` on, an argument vector without either flag leaves the
/// gathered values as they are.
proof fn lemma_scan_without_flags(
    args: Seq<Seq<char>>,
    i: int,
    new_window: bool,
    directory: Option<Seq<char>>,
)
    requires
        forall|k: int|
            i <= k < args.len() ==> args[k] != new_window_flag() && args[k] != dir_flag(),
    ensures
        scan_intent(args, i, new_window, directory) == (new_window, directory),
    decreases args.len() - i,
{
    if 0 <= i < args.len() {
        lemma_scan_without_flags(args, i + 1, new_window, directory);
    }
}

/// The scan from position `i` reads nothing before `i`.
proof fn lemma_scan_ignores_prefix(
    args: Seq<Seq<char>>,
    other: Seq<Seq<char>>,
    i: int,
    new_window: bool,
    directory: Option<Seq<char>>,
)
    requires
        0 <= i,
        args.len() == other.len(),
        forall|k: int| i <= k < args.len() ==> args[k] == other[k],
    ensures
        scan_intent(args, i, new_window, directory) == scan_intent(other, i, new_window, directory),
    decreases args.len() - i,
{
    if i < args.len() {
        lemma_scan_ignores_prefix(args, other, i + 1, true, directory);
        lemma_scan_ignores_prefix(args, other, i + 1, new_window, directory);
        if i + 1 < args.len() {
            lemma_scan_ignores_prefix(args, other, i + 2, new_window, Some(args[i + 1]));
        }
    }
}

/// A launch whose arguments after the program name hold neither
/// `--new-window` nor `--dir` is a plain launch: no new window is
/// requested and no directory is set.
pub proof fn lemma_plain_launch(args: Seq<Seq<char>>)
    requires
        forall|k: int|
            1 <= k < args.len() ==> args[k] != new_window_flag() && args[k] != dir_flag(),
    ensures
        intent_of(args) == (false, Option::<Seq<char>>::None),
{
    lemma_scan_without_flags(args, 1, false, None);
}

/// The program name in `args[0]` is never read: whatever it is, the intent
/// is the same.
pub proof fn lemma_program_name_ignored(args: Seq<Seq<char>>, name: Seq<char>)
    requires
        args.len() >= 1,
    ensures
        intent_of(args.update(0, name)) == intent_of(args),
{
    lemma_scan_ignores_prefix(args.update(0, name), args, 1, false, None);
}

/// The argument vector of the Explorer context-menu entry,
/// `<exe> --new-window --dir <folder>`, asks for a new window whose shell
/// starts in `folder`, whatever the program path and the folder are.
pub proof fn lemma_context_menu_launch(exe: Seq<char>, folder: Seq<char>)
    ensures
        intent_of(seq![exe, new_window_flag(), dir_flag(), folder]) == (true, Some(folder)),
{
    reveal_strlit("--new-window");
    reveal_strlit("--dir");
    let args = seq![exe, new_window_flag(), dir_flag(), folder];
    assert(new_window_flag().len() != dir_flag().len());
    assert(args[1] == new_window_flag());
    assert(args[2] != new_window_flag());
    assert(scan_intent(args, 4, true, Some(folder)) == (true, Some(folder)));
    assert(scan_intent(args, 2, true, None) == (true, Some(folder)));
}

/// Whether `args[k]` is `--dir` with an argument after it, so that the
/// argument after it is that flag's value.
pub open spec fn dir_pair_at(args: Seq<Seq<char>>, k: int) -> bool {
    0 <= k && k + 1 < args.len() && args[k] == dir_flag()
}

/// Whether `args[j]` is read as an argument of its own (a flag, or
/// something skipped) when the arguments are read from position `s` on;
/// the values of `--dir` are not.
pub open spec fn read_as_argument(args: Seq<Seq<char>>, s: int, j: int) -> bool
    decreases args.len() - s,
{
    if s < 0 || s >= args.len() || s > j {
        false
    } else if s == j {
        true
    } else if dir_pair_at(args, s) {
        read_as_argument(args, s + 2, j)
    } else {
        read_as_argument(args, s + 1, j)
    }
}

proof fn lemma_scan_flag(args: Seq<Seq<char>>, s: int, new_window: bool, directory: Option<Seq<char>>)
    requires
        s >= 1,
    ensures
        scan_intent(args, s, new_window, directory).0 == (new_window || exists|j: int|
            #[trigger] read_as_argument(args, s, j) && args[j] == new_window_flag()),
    decreases args.len() - s,
{
    if s < args.len() {
        let d2 = s + 1 < args.len() && args[s] == dir_flag();
        if args[s] == new_window_flag() {
            lemma_scan_flag(args, s + 1, true, directory);
            assert(read_as_argument(args, s, s));
        } else if d2 {
            lemma_scan_flag(args, s + 2, new_window, Some(args[s + 1]));
            assert forall|j: int| #[trigger] read_as_argument(args, s, j) && args[j] == new_window_flag()
                implies read_as_argument(args, s + 2, j) by {
                if j == s {
                }
            }
            assert forall|j: int| #[trigger] read_as_argument(args, s + 2, j) implies read_as_argument(
                args,
                s,
                j,
            ) by {
                lemma_read_after(args, s + 2, j);
            }
        } else {
            lemma_scan_flag(args, s + 1, new_window, directory);
            assert forall|j: int| #[trigger] read_as_argument(args, s, j) && args[j] == new_window_flag()
                implies read_as_argument(args, s + 1, j) by {
                if j == s {
                }
            }
            assert forall|j: int| #[trigger] read_as_argument(args, s + 1, j) implies read_as_argument(
                args,
                s,
                j,
            ) by {
                lemma_read_after(args, s + 1, j);
            }
        }
    } else {
        assert forall|j: int| !#[trigger] read_as_argument(args, s, j) by {}
    }
}

proof fn lemma_read_after(args: Seq<Seq<char>>, s: int, j: int)
    requires
        read_as_argument(args, s, j),
    ensures
        s <= j < args.len(),
    decreases args.len() - s,
{
    if s != j {
        if dir_pair_at(args, s) {
            lemma_read_after(args, s + 2, j);
        } else {
            lemma_read_after(args, s + 1, j);
        }
    }
}

/// A new window is asked for exactly when some argument after the program
/// name is `--new-window` and is read as an argument of its own (not as
/// the value of a `--dir`), wherever it stands relative to any `--dir`.
pub proof fn lemma_new_window_flag_anywhere(args: Seq<Seq<char>>)
    ensures
        intent_of(args).0 <==> exists|j: int|
            #[trigger] read_as_argument(args, 1, j) && args[j] == new_window_flag(),
{
    lemma_scan_flag(args, 1, false, None);
}

proof fn lemma_flags_differ()
    ensures
        new_window_flag() != dir_flag(),
{
    reveal_strlit("--new-window");
    reveal_strlit("--dir");
    assert(new_window_flag().len() != dir_flag().len());
}

/// Whether `args[j]`, read as an argument from position `s` on, is a
/// `--dir` with a value after which no other `--dir` with a value is read.
pub open spec fn last_dir_pair(args: Seq<Seq<char>>, s: int, j: int) -> bool {
    &&& read_as_argument(args, s, j)
    &&& dir_pair_at(args, j)
    &&& forall|k: int| j < k && #[trigger] read_as_argument(args, s, k) ==> !dir_pair_at(args, k)
}

proof fn lemma_scan_dir(args: Seq<Seq<char>>, s: int, new_window: bool, directory: Option<Seq<char>>)
    requires
        s >= 1,
    ensures
        (forall|j: int| #[trigger] read_as_argument(args, s, j) ==> !dir_pair_at(args, j))
            ==> scan_intent(args, s, new_window, directory).1 == directory,
        (exists|j: int| #[trigger] read_as_argument(args, s, j) && dir_pair_at(args, j)) ==> exists|
            j: int,
        |
            #[trigger] last_dir_pair(args, s, j) && scan_intent(args, s, new_window, directory).1
                == Some(args[j + 1]),
    decreases args.len() - s,
{
    lemma_flags_differ();
    if s < args.len() {
        if !dir_pair_at(args, s) {
            let nw2 = if args[s] == new_window_flag() {
                true
            } else {
                new_window
            };
            assert(scan_intent(args, s, new_window, directory) == scan_intent(
                args,
                s + 1,
                nw2,
                directory,
            ));
            lemma_scan_dir(args, s + 1, nw2, directory);
            lemma_shift(args, s, s + 1);
            lemma_step_plain(args, s, nw2, directory, new_window);
        } else {
            let d2 = Some(args[s + 1]);
            lemma_scan_dir(args, s + 2, new_window, d2);
            lemma_shift(args, s, s + 2);
            assert(scan_intent(args, s, new_window, directory) == scan_intent(
                args,
                s + 2,
                new_window,
                d2,
            ));
            if exists|j: int| #[trigger] read_as_argument(args, s + 2, j) && dir_pair_at(args, j) {
                let j = choose|j: int|
                    #[trigger] last_dir_pair(args, s + 2, j) && scan_intent(
                        args,
                        s + 2,
                        new_window,
                        d2,
                    ).1 == Some(args[j + 1]);
                assert forall|k: int| j < k && #[trigger] read_as_argument(args, s, k) implies !dir_pair_at(
                    args,
                    k,
                ) by {
                    assert(read_as_argument(args, s + 2, k));
                }
                assert(last_dir_pair(args, s, j));
            } else {
                assert forall|k: int| s < k && #[trigger] read_as_argument(args, s, k) implies !dir_pair_at(
                    args,
                    k,
                ) by {
                    assert(read_as_argument(args, s + 2, k));
                }
                assert(last_dir_pair(args, s, s));
            }
        }
    } else {
        assert forall|j: int| !#[trigger] read_as_argument(args, s, j) by {}
    }
}

/// The step of `lemma_scan_dir` past an argument that is not a `--dir`
/// with a value.
proof fn lemma_step_plain(
    args: Seq<Seq<char>>,
    s: int,
    nw2: bool,
    directory: Option<Seq<char>>,
    new_window: bool,
)
    requires
        1 <= s < args.len(),
        !dir_pair_at(args, s),
        scan_intent(args, s, new_window, directory) == scan_intent(args, s + 1, nw2, directory),
        read_as_argument(args, s, s),
        forall|k: int| k != s ==> (#[trigger] read_as_argument(args, s, k) == read_as_argument(args, s + 1, k)),
        forall|k: int| #[trigger] read_as_argument(args, s + 1, k) ==> k > s,
        (forall|j: int| #[trigger] read_as_argument(args, s + 1, j) ==> !dir_pair_at(args, j))
            ==> scan_intent(args, s + 1, nw2, directory).1 == directory,
        (exists|j: int| #[trigger] read_as_argument(args, s + 1, j) && dir_pair_at(args, j)) ==> exists|
            j: int,
        |
            #[trigger] last_dir_pair(args, s + 1, j) && scan_intent(args, s + 1, nw2, directory).1
                == Some(args[j + 1]),
    ensures
        (forall|j: int| #[trigger] read_as_argument(args, s, j) ==> !dir_pair_at(args, j))
            ==> scan_intent(args, s, new_window, directory).1 == directory,
        (exists|j: int| #[trigger] read_as_argument(args, s, j) && dir_pair_at(args, j)) ==> exists|
            j: int,
        |
            #[trigger] last_dir_pair(args, s, j) && scan_intent(args, s, new_window, directory).1
                == Some(args[j + 1]),
{
    if forall|j: int| #[trigger] read_as_argument(args, s, j) ==> !dir_pair_at(args, j) {
        assert forall|j: int| #[trigger] read_as_argument(args, s + 1, j) implies !dir_pair_at(args, j) by {
            assert(read_as_argument(args, s, j));
        }
    }
    if exists|j: int| #[trigger] read_as_argument(args, s, j) && dir_pair_at(args, j) {
        let w = choose|j: int| #[trigger] read_as_argument(args, s, j) && dir_pair_at(args, j);
        assert(w != s);
        assert(read_as_argument(args, s + 1, w));
        let j = choose|j: int|
            #[trigger] last_dir_pair(args, s + 1, j) && scan_intent(args, s + 1, nw2, directory).1
                == Some(args[j + 1]);
        assert(j > s);
        assert(read_as_argument(args, s, j));
        assert forall|k: int| j < k && #[trigger] read_as_argument(args, s, k) implies !dir_pair_at(args, k) by {
            assert(read_as_argument(args, s + 1, k));
        }
        assert(last_dir_pair(args, s, j));
    }
}

/// Reading from `s`, the arguments after `s` are those read from the next
/// position `t` (`s + 2` after a `--dir` with a value, else `s + 1`).
proof fn lemma_shift(args: Seq<Seq<char>>, s: int, t: int)
    requires
        0 <= s < args.len(),
        t == (if dir_pair_at(args, s) { s + 2 } else { s + 1 }),
    ensures
        read_as_argument(args, s, s),
        forall|k: int| k != s ==> (#[trigger] read_as_argument(args, s, k) == read_as_argument(args, t, k)),
        forall|k: int| #[trigger] read_as_argument(args, t, k) ==> k > s,
{
    assert forall|k: int| #[trigger] read_as_argument(args, t, k) implies k > s by {
        lemma_read_after(args, t, k);
    }
}

/// The directory is the value of the last `--dir` (with a value after
/// it) read as an argument after the program name, and there is none
/// exactly when no such `--dir` is read; a `--new-window` before or after
/// it does not change it.
pub proof fn lemma_directory_is_last_dir_value(args: Seq<Seq<char>>)
    ensures
        intent_of(args).1 is None <==> (forall|j: int|
            #[trigger] read_as_argument(args, 1, j) ==> !dir_pair_at(args, j)),
        intent_of(args).1 matches Some(v) ==> exists|j: int|
            #[trigger] last_dir_pair(args, 1, j) && v == args[j + 1],
{
    lemma_scan_dir(args, 1, false, None);
}

} // verus!
