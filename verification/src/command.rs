//! Logic of the command-line tool that does not touch files.

use vstd::prelude::*;
use crate::stdx::{alphanumeric, char_is_alphanumeric};
use crate::stdx::{parse_u16, parse_u64, unsigned_text};
use crate::text::{chars_of, str_same, string_of_chars};

verus! {

/// A character kept in a safe name: a letter or digit, `_` or `-`.
pub open spec fn safe_char(c: char) -> bool {
    alphanumeric(c) || c == '_' || c == '-'
}

/// A name with every other character replaced by `_`.
pub open spec fn safe_name_of(s: Seq<char>) -> Seq<char> {
    Seq::new(s.len(), |i: int| if safe_char(s[i]) { s[i] } else { '_' })
}

/// A name fit for a file of output: letters, digits, `_` and `-` stay,
/// every other character becomes `_`.
pub fn safe_name(name: &str) -> (r: String)
    ensures
        r@ == safe_name_of(name@),
{
    let c = chars_of(name);
    let mut m: Vec<char> = Vec::new();
    let mut i: usize = 0;
    while i < c.len()
        invariant
            c@ == name@,
            i <= c@.len(),
            m@ == safe_name_of(c@).take(i as int),
        decreases c.len() - i,
    {
        let ch = c[i];
        m.push(if char_is_alphanumeric(ch) || ch == '_' || ch == '-' {
            ch
        } else {
            '_'
        });
        i = i + 1;
        assert(m@ =~= safe_name_of(c@).take(i as int));
    }
    assert(m@ =~= safe_name_of(name@));
    string_of_chars(&m)
}

} // verus!

verus! {

/// How to run a project: the options of the commands that run one.
pub struct RunOptions {
    pub path: String,
    pub ticks: u64,
    pub dump: bool,
    pub watch: Vec<String>,
    /// The folders of libraries; none given means the default ones.
    pub libraries: Vec<String>,
    pub out: String,
    pub port: u16,
}

pub struct RunOptionsView {
    pub path: Seq<char>,
    pub ticks: u64,
    pub dump: bool,
    pub watch: Seq<Seq<char>>,
    pub libraries: Seq<Seq<char>>,
    pub out: Seq<char>,
    pub port: u16,
}

pub open spec fn texts(s: Seq<String>) -> Seq<Seq<char>> {
    s.map_values(|t: String| t@)
}

impl View for RunOptions {
    type V = RunOptionsView;

    open spec fn view(&self) -> RunOptionsView {
        RunOptionsView {
            path: self.path@,
            ticks: self.ticks,
            dump: self.dump,
            watch: texts(self.watch@),
            libraries: texts(self.libraries@),
            out: self.out@,
            port: self.port,
        }
    }
}

/// The options before any argument is read.
pub open spec fn default_run_options() -> RunOptionsView {
    RunOptionsView {
        path: Seq::empty(),
        ticks: 1,
        dump: false,
        watch: Seq::empty(),
        libraries: Seq::empty(),
        out: "."@,
        port: 8765,
    }
}

pub open spec fn is_key(a: Seq<char>) -> bool {
    a.len() >= 2 && a[0] == '-' && a[1] == '-'
}

/// The options after the arguments from `i` on are read into `o`.
pub open spec fn run_opts(args: Seq<Seq<char>>, i: int, o: RunOptionsView) -> Result<RunOptionsView, Seq<char>>
    decreases args.len() - i,
{
    if !(0 <= i < args.len()) {
        Ok(o)
    } else {
        let a = args[i];
        if a == "--ticks"@ {
            if i + 1 < args.len() {
                match unsigned_text(args[i + 1]) {
                    Some(v) => if v <= u64::MAX {
                        run_opts(args, i + 2, RunOptionsView { ticks: v as u64, ..o })
                    } else {
                        Err("после --ticks нужно число"@)
                    },
                    None => Err("после --ticks нужно число"@),
                }
            } else {
                Err("после --ticks нужно число"@)
            }
        } else if a == "--dump"@ {
            run_opts(args, i + 1, RunOptionsView { dump: true, ..o })
        } else if a == "--port"@ {
            if i + 1 < args.len() {
                match unsigned_text(args[i + 1]) {
                    Some(v) => if v <= u16::MAX {
                        run_opts(args, i + 2, RunOptionsView { port: v as u16, ..o })
                    } else {
                        Err("после --port нужно число"@)
                    },
                    None => Err("после --port нужно число"@),
                }
            } else {
                Err("после --port нужно число"@)
            }
        } else if a == "--out"@ {
            if i + 1 < args.len() {
                run_opts(args, i + 2, RunOptionsView { out: args[i + 1], ..o })
            } else {
                Err("после --out нужна папка"@)
            }
        } else if a == "--lib"@ {
            if i + 1 < args.len() {
                run_opts(args, i + 2, RunOptionsView { libraries: o.libraries.push(args[i + 1]), ..o })
            } else {
                Err("после --lib нужна папка"@)
            }
        } else if a == "--watch"@ {
            if i + 1 < args.len() {
                run_opts(args, i + 2, RunOptionsView { watch: o.watch.push(args[i + 1]), ..o })
            } else {
                Err("после --watch нужно имя переменной"@)
            }
        } else if is_key(a) {
            Err("неизвестный ключ "@ + a)
        } else {
            run_opts(args, i + 1, RunOptionsView { path: a, ..o })
        }
    }
}

/// The options of `args`; a run needs a project unless an argument is empty.
pub open spec fn run_options(args: Seq<Seq<char>>) -> Result<RunOptionsView, Seq<char>> {
    match run_opts(args, 0, default_run_options()) {
        Err(e) => Err(e),
        Ok(o) => if o.path.len() == 0 && !(exists|j: int| 0 <= j < args.len() && (#[trigger] args[j]).len() == 0) {
            Err("не указан проект"@)
        } else {
            Ok(o)
        },
    }
}

fn starts_with_dashes(a: &str) -> (b: bool)
    ensures
        b == is_key(a@),
{
    let c = chars_of(a);
    c.len() >= 2 && c[0] == '-' && c[1] == '-'
}

fn message(s: &str) -> (r: String)
    ensures
        r@ == s@,
{
    String::from_str(s)
}

/// Reads the options of a run. Where no library is named the caller looks
/// for the default ones.
pub fn parse_run_options(args: &[String]) -> (r: Result<RunOptions, String>)
    ensures
        match run_options(texts(args@)) {
            Ok(o) => r matches Ok(x) && x@ == o,
            Err(e) => r matches Err(x) && x@ == e,
        },
{
    let ghost av = texts(args@);
    let mut opts = RunOptions {
        path: String::new(),
        ticks: 1,
        dump: false,
        watch: Vec::new(),
        libraries: Vec::new(),
        out: message("."),
        port: 8765,
    };
    assert(texts(opts.watch@) =~= Seq::<Seq<char>>::empty());
    assert(texts(opts.libraries@) =~= Seq::<Seq<char>>::empty());
    let ghost target = run_opts(av, 0, default_run_options());
    let mut i: usize = 0;
    while i < args.len()
        invariant
            av == texts(args@),
            av.len() == args@.len(),
            i <= args.len(),
            target == run_opts(av, 0, default_run_options()),
            target == run_opts(av, i as int, opts@),
        decreases args.len() - i,
    {
        let a = args[i].as_str();
        assert(a@ == av[i as int]);
        if str_same(a, "--ticks") {
            i = i + 1;
            if i >= args.len() {
                return Err(message("после --ticks нужно число"));
            }
            assert(args[i as int]@ == av[i as int]);
            match parse_u64(args[i].as_str()) {
                Some(v) => opts.ticks = v,
                None => return Err(message("после --ticks нужно число")),
            }
        } else if str_same(a, "--dump") {
            opts.dump = true;
        } else if str_same(a, "--port") {
            i = i + 1;
            if i >= args.len() {
                return Err(message("после --port нужно число"));
            }
            assert(args[i as int]@ == av[i as int]);
            match parse_u16(args[i].as_str()) {
                Some(v) => opts.port = v,
                None => return Err(message("после --port нужно число")),
            }
        } else if str_same(a, "--out") {
            i = i + 1;
            if i >= args.len() {
                return Err(message("после --out нужна папка"));
            }
            assert(args[i as int]@ == av[i as int]);
            opts.out = args[i].clone();
        } else if str_same(a, "--lib") {
            i = i + 1;
            if i >= args.len() {
                return Err(message("после --lib нужна папка"));
            }
            assert(args[i as int]@ == av[i as int]);
            let ghost before = opts.libraries@;
            opts.libraries.push(args[i].clone());
            assert(texts(opts.libraries@) =~= texts(before).push(av[i as int]));
        } else if str_same(a, "--watch") {
            i = i + 1;
            if i >= args.len() {
                return Err(message("после --watch нужно имя переменной"));
            }
            assert(args[i as int]@ == av[i as int]);
            let ghost before = opts.watch@;
            opts.watch.push(args[i].clone());
            assert(texts(opts.watch@) =~= texts(before).push(av[i as int]));
        } else if starts_with_dashes(a) {
            let mut m = message("неизвестный ключ ");
            m.append(a);
            return Err(m);
        } else {
            opts.path = args[i].clone();
        }
        i = i + 1;
    }
    let mut any_empty = false;
    let mut j: usize = 0;
    while j < args.len()
        invariant
            av == texts(args@),
            j <= args.len(),
            any_empty == exists|k: int| 0 <= k < j && (#[trigger] av[k]).len() == 0,
        decreases args.len() - j,
    {
        assert(args[j as int]@ == av[j as int]);
        if args[j].as_str().is_empty() {
            any_empty = true;
        }
        j = j + 1;
    }
    if opts.path.as_str().is_empty() && !any_empty {
        return Err(message("не указан проект"));
    }
    Ok(opts)
}

} // verus!
