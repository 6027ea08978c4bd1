//! Paths within a volume.

use vstd::prelude::*;

use crate::dir::ROOT_RECORD_NUMBER;
use crate::text;
use crate::text::{chars_of, same_text};

verus! {

/// The first slash from `at` on, or the end.
pub open spec fn next_slash(s: Seq<char>, at: int) -> int
    decreases s.len() - at,
{
    if at < 0 || at >= s.len() {
        s.len() as int
    } else if s[at] == '/' {
        at
    } else {
        next_slash(s, at + 1)
    }
}

/// One step of a path.
pub enum Component {
    /// To the parent.
    Up,
    /// To the entry of this name.
    Name(String),
}

/// One step of a path.
pub enum Step {
    Up,
    Name(Seq<char>),
}

/// The step that a piece of a path stands for, if it stands for one: nothing
/// between two slashes and a single dot do not.
pub open spec fn step_of(piece: Seq<char>) -> Option<Step> {
    if piece.len() == 0 || piece == "."@ {
        None
    } else if piece == ".."@ {
        Some(Step::Up)
    } else {
        Some(Step::Name(piece))
    }
}

/// The steps of a path from `at` on.
pub open spec fn steps_from(s: Seq<char>, at: int) -> Seq<Step>
    decreases s.len() - at,
{
    if at < 0 || at > s.len() {
        Seq::empty()
    } else {
        let end = next_slash(s, at);
        let rest = if end < at || end >= s.len() {
            Seq::empty()
        } else {
            steps_from(s, end + 1)
        };
        match step_of(s.subrange(at, end)) {
            Some(step) => seq![step] + rest,
            None => rest,
        }
    }
}

/// The steps of a path.
pub open spec fn steps(s: Seq<char>) -> Seq<Step> {
    steps_from(s, 0)
}

impl View for Component {
    type V = Step;

    open spec fn view(&self) -> Step {
        match self {
            Component::Up => Step::Up,
            Component::Name(s) => Step::Name(s@),
        }
    }
}

/// What the components of a list are.
pub open spec fn views(list: Seq<Component>) -> Seq<Step> {
    list.map_values(|c: Component| c@)
}

fn find_slash(chars: &[char], at: usize) -> (end: usize)
    requires
        at <= chars.len(),
    ensures
        end == next_slash(chars@, at as int),
        at <= end <= chars@.len(),
{
    let mut i: usize = at;
    while i < chars.len()
        invariant
            at <= i <= chars@.len(),
            next_slash(chars@, i as int) == next_slash(chars@, at as int),
        decreases chars.len() - i,
    {
        if chars[i] == '/' {
            return i;
        }
        i = i + 1;
    }
    i
}

/// The steps of a path from the root on. Slashes at the start, and several in a
/// row, are as one.
pub fn path_components(path: &str) -> (list: Vec<Component>)
    ensures
        views(list@) == steps(path@),
{
    let chars: Vec<char> = chars_of(path);
    let mut list: Vec<Component> = Vec::new();
    let mut at: usize = 0;
    proof {
        assert(views(list@) =~= Seq::<Step>::empty());
        assert(views(list@) + steps(path@) =~= steps(path@));
    }
    loop
        invariant
            chars@ == path@,
            at <= chars@.len(),
            views(list@) + steps_from(path@, at as int) == steps(path@),
        decreases chars.len() - at,
    {
        let end: usize = find_slash(chars.as_slice(), at);
        let piece: &str = path.substring_char(at, end);
        let ghost had = views(list@);
        let ghost rest = if end < path@.len() {
            steps_from(path@, end + 1)
        } else {
            Seq::<Step>::empty()
        };
        proof {
            assert(piece@ == path@.subrange(at as int, end as int));
        }
        if end > at && !same_text(piece, ".") {
            if same_text(piece, "..") {
                list.push(Component::Up);
            } else {
                list.push(Component::Name(piece.to_owned()));
            }
            proof {
                let step = step_of(piece@)->0;
                assert(views(list@) =~= had.push(step));
                assert(had + (seq![step] + rest) =~= had.push(step) + rest);
            }
        } else {
            proof {
                assert(step_of(piece@) is None);
            }
        }
        if end >= chars.len() {
            proof {
                assert(views(list@) + rest =~= views(list@));
            }
            return list;
        }
        at = end + 1;
    }
}

/// Whether a step to the parent leads anywhere: from the root it does not.
pub fn has_parent(record: u64) -> (b: bool)
    ensures
        b == (record != ROOT_RECORD_NUMBER),
{
    record != ROOT_RECORD_NUMBER
}

/// The last slash before `end`.
pub open spec fn last_slash(s: Seq<char>, end: int) -> Option<int>
    decreases end,
{
    if end <= 0 {
        None
    } else if s[end - 1] == '/' {
        Some(end - 1)
    } else {
        last_slash(s, end - 1)
    }
}

/// The parent and the last name of a path.
pub open spec fn parent_and_name(s: Seq<char>) -> Result<(Seq<char>, Seq<char>), Seq<char>> {
    match last_slash(s, s.len() as int) {
        None => Err("path '"@ + s + "' must contain at least one '/'"@),
        Some(k) => if k + 1 == s.len() {
            Err("path '"@ + s + "' has empty basename"@)
        } else if k == 0 {
            Ok(("/"@, s.skip(1)))
        } else {
            Ok((s.take(k), s.skip(k + 1)))
        },
    }
}

/// Splits a path into its parent and its last name. The parent of what is in the
/// root is `/`.
pub fn split_path(path: &str) -> (res: Result<(String, String), String>)
    ensures
        match (res, parent_and_name(path@)) {
            (Ok((p, n)), Ok((wp, wn))) => p@ == wp && n@ == wn,
            (Err(m), Err(w)) => m@ == w,
            _ => false,
        },
{
    let chars: Vec<char> = chars_of(path);
    let size: usize = chars.len();
    let mut k: usize = size;
    while k > 0
        invariant
            chars@ == path@,
            size == chars@.len(),
            k <= size,
            last_slash(path@, k as int) == last_slash(path@, size as int),
        decreases k,
    {
        if chars[k - 1] == '/' {
            if k == size {
                return Err(
                    "path '".to_owned().concat(path).concat("' has empty basename"),
                );
            }
            let name: &str = path.substring_char(k, size);
            proof {
                assert(name@ =~= path@.skip(k as int));
            }
            if k == 1 {
                return Ok(("/".to_owned(), name.to_owned()));
            }
            let parent: &str = path.substring_char(0, k - 1);
            proof {
                assert(parent@ =~= path@.take(k - 1));
            }
            return Ok((parent.to_owned(), name.to_owned()));
        }
        k = k - 1;
    }
    Err("path '".to_owned().concat(path).concat("' must contain at least one '/'"))
}

/// The path of what is named `name` in `dir`.
pub open spec fn child_of(dir: Seq<char>, name: Seq<char>) -> Seq<char> {
    if dir == "/"@ {
        "/"@ + name
    } else {
        dir + "/"@ + name
    }
}

/// The path of what is named `name` in `dir`.
pub fn child_path(dir: &str, name: &str) -> (p: String)
    ensures
        p@ == child_of(dir@, name@),
{
    if same_text(dir, "/") {
        "/".to_owned().concat(name)
    } else {
        dir.to_owned().concat("/").concat(name)
    }
}

/// A path that was put together from a directory and a name comes apart into
/// them.
pub proof fn lemma_split_of_child(dir: Seq<char>, name: Seq<char>)
    requires
        dir.len() > 0,
        name.len() > 0,
        !name.contains('/'),
    ensures
        parent_and_name(child_of(dir, name)) == Ok::<(Seq<char>, Seq<char>), Seq<char>>(
            (dir, name),
        ),
{
    reveal_strlit("/");
    let p = child_of(dir, name);
    let k = p.len() - name.len() - 1;
    assert(p[k] == '/');
    assert(p.skip(k + 1) =~= name);
    assert forall|j: int| k < j < p.len() implies #[trigger] p[j] != '/' by {
        assert(p[j] == name[j - k - 1]);
    }
    lemma_last_slash(p, p.len() as int, k);
    if dir == "/"@ {
        assert(k == 0);
        assert(p.skip(1) =~= name);
    } else {
        assert(p.take(k) =~= dir);
    }
}

proof fn lemma_last_slash(s: Seq<char>, end: int, k: int)
    requires
        0 <= k < end <= s.len(),
        s[k] == '/',
        forall|j: int| k < j < end ==> #[trigger] s[j] != '/',
    ensures
        last_slash(s, end) == Some(k),
    decreases end,
{
    if k < end - 1 {
        lemma_last_slash(s, end - 1, k);
    }
}

} // verus!
