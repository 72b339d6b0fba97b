//! Where the files are: `~/.config/substrate/<company>/todos.md` and the audit
//! log `~/.local/state/todo/events.jsonl`.
//!
//! Paths are plain text here, with `/` between the parts. The home directory
//! and the environment are handed in by the caller.

use crate::text;
use vstd::prelude::*;
use vstd::slice::*;

verus! {

/// The company asked for: the one given on the command line, else the one of
/// the environment, else `_global`.
pub open spec fn company_of(cli: Option<Seq<char>>, environment: Option<Seq<char>>) -> Seq<char> {
    match cli {
        Some(c) => c,
        None => match environment {
            Some(c) => c,
            None => "_global"@,
        },
    }
}

/// View of optional text.
pub open spec fn opt_str(s: Option<&str>) -> Option<Seq<char>> {
    match s {
        Some(t) => Some(t@),
        None => None,
    }
}

/// The company asked for.
pub fn resolve_company(cli_company: Option<&str>, environment: Option<&str>) -> (r: String)
    ensures
        r@ == company_of(opt_str(cli_company), opt_str(environment)),
{
    match cli_company {
        Some(c) => text::owned(c),
        None => match environment {
            Some(c) => text::owned(c),
            None => text::owned("_global"),
        },
    }
}

/// A path further down. An absolute part replaces what comes before it.
pub open spec fn join(base: Seq<char>, part: Seq<char>) -> Seq<char> {
    if part.len() > 0 && part[0] == '/' {
        part
    } else if base.len() == 0 || base.last() == '/' {
        base + part
    } else {
        base + "/"@ + part
    }
}

fn joined(base: &str, part: &str) -> (r: String)
    ensures
        r@ == join(base@, part@),
{
    let b: Vec<char> = text::chars_of(base);
    let p: Vec<char> = text::chars_of(part);
    let n: usize = b.len();
    if p.len() > 0 && p[0] == '/' {
        text::owned(part)
    } else if n == 0 || b[n - 1] == '/' {
        let mut r: String = text::owned(base);
        text::push_str(&mut r, part);
        r
    } else {
        text::concat3(base, "/", part)
    }
}

/// The directory of a company.
pub open spec fn company_dir(home: Seq<char>, company: Seq<char>) -> Seq<char> {
    join(join(home, ".config/substrate"@), company)
}

/// The path of a directory without separators and `.` parts at its end.
pub open spec fn trim_dir(dir: Seq<char>) -> Seq<char>
    decreases dir.len(),
{
    let n = dir.len();
    if n > 1 && (dir.last() == '/' || (dir.last() == '.' && dir[n - 2] == '/')) {
        trim_dir(dir.drop_last())
    } else {
        dir
    }
}

/// Where the list of a company is.
pub open spec fn todos_file(home: Seq<char>, company: Seq<char>) -> Seq<char> {
    join(company_dir(home, company), "todos.md"@)
}

/// Where the lock of that list is: next to it.
pub open spec fn lock_file(home: Seq<char>, company: Seq<char>) -> Seq<char> {
    join(trim_dir(company_dir(home, company)), ".todos.lock"@)
}

/// Where the audit log is.
pub open spec fn events_file(home: Seq<char>) -> Seq<char> {
    join(home, ".local/state/todo/events.jsonl"@)
}

fn dir_of(home: &str, company: &str) -> (r: String)
    ensures
        r@ == company_dir(home@, company@),
{
    joined(joined(home, ".config/substrate").as_str(), company)
}

fn trimmed_dir(dir: &str) -> (r: String)
    ensures
        r@ == trim_dir(dir@),
{
    let cs: Vec<char> = text::chars_of(dir);
    let c: &[char] = cs.as_slice();
    let mut n: usize = c.len();
    assert(dir@.take(n as int) =~= dir@);
    while n > 1 && (c[n - 1] == '/' || (c[n - 1] == '.' && c[n - 2] == '/'))
        invariant
            0 <= n <= c@.len(),
            c@ == dir@,
            trim_dir(dir@) == trim_dir(dir@.take(n as int)),
        decreases n,
    {
        assert(dir@.take(n as int).drop_last() =~= dir@.take(n as int - 1));
        n = n - 1;
    }
    let kept: &[char] = slice_subrange(c, 0, n);
    assert(kept@ =~= dir@.take(n as int));
    text::string_of(kept)
}

/// Where the list of a company is.
pub fn todos_path(home: &str, company: &str) -> (r: String)
    ensures
        r@ == todos_file(home@, company@),
{
    joined(dir_of(home, company).as_str(), "todos.md")
}

/// The lock held while a list is changed.
pub fn lock_path(home: &str, company: &str) -> (r: String)
    ensures
        r@ == lock_file(home@, company@),
{
    joined(trimmed_dir(dir_of(home, company).as_str()).as_str(), ".todos.lock")
}

/// The audit log.
pub fn events_path(home: &str) -> (r: String)
    ensures
        r@ == events_file(home@),
{
    joined(home, ".local/state/todo/events.jsonl")
}

/// The command line decides on the company, then the environment.
pub proof fn law_company_choice(a: Seq<char>, environment: Option<Seq<char>>)
    ensures
        company_of(Some(a), environment) == a,
        company_of(None, Some(a)) == a,
        company_of(None, None) == "_global"@,
{
}

/// Under a home directory and for the name of a company, neither with a
/// separator at the wrong end, the list, its lock and the audit log are where
/// they are said to be: the lock next to the list, the log outside.
pub proof fn law_places(home: Seq<char>, company: Seq<char>)
    requires
        home.len() > 0 && home.last() != '/',
        company.len() > 0 && company[0] != '/' && company.last() != '/' && company.last() != '.',
    ensures
        todos_file(home, company) == home + "/.config/substrate/"@ + company + "/todos.md"@,
        lock_file(home, company) == home + "/.config/substrate/"@ + company + "/.todos.lock"@,
        events_file(home) == home + "/.local/state/todo/events.jsonl"@,
{
    reveal_strlit(".config/substrate");
    reveal_strlit("/.config/substrate/");
    reveal_strlit("todos.md");
    reveal_strlit("/todos.md");
    reveal_strlit(".todos.lock");
    reveal_strlit("/.todos.lock");
    reveal_strlit(".local/state/todo/events.jsonl");
    reveal_strlit("/.local/state/todo/events.jsonl");
    reveal_strlit("/");
    let base = join(home, ".config/substrate"@);
    assert(base =~= home + "/"@ + ".config/substrate"@);
    assert(base.last() == 'e');
    let dir = join(base, company);
    assert(dir =~= home + "/.config/substrate/"@ + company);
    assert(dir.last() == company.last());
    assert(trim_dir(dir) == dir);
    assert(todos_file(home, company) =~= dir + "/todos.md"@);
    assert(lock_file(home, company) =~= dir + "/.todos.lock"@);
    assert(events_file(home) =~= home + "/.local/state/todo/events.jsonl"@);
}

} // verus!
