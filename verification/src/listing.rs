//! The commands that list a volume: their arguments, and what they print.

use vstd::prelude::*;

use crate::facade::{Attr, DirEntry, FileType};
use crate::paths;
use crate::paths::child_path;
use crate::text;
use crate::text::{chars_of, decimal, octal, same_text};

verus! {

/// What a listing is asked for.
pub struct LsArgs {
    pub image: String,
    pub start_path: String,
    pub show_type: bool,
}

/// What a listing is asked for, while its arguments are read.
pub struct LsView {
    pub image: Option<Seq<char>>,
    pub start_path: Seq<char>,
    pub show_type: bool,
}

/// What the arguments from the `i`th on make of it: `None` where help is asked
/// for first.
pub open spec fn ls_from(
    args: Seq<Seq<char>>,
    i: int,
    v: LsView,
    usage: Seq<char>,
) -> Result<Option<LsView>, Seq<char>>
    decreases args.len() - i,
{
    if i < 0 || i >= args.len() {
        Ok(Some(v))
    } else if args[i] == "-h"@ || args[i] == "--help"@ {
        Ok(None)
    } else if args[i] == "-p"@ || args[i] == "--path"@ {
        if i + 1 >= args.len() {
            Err(args[i] + " requires a path argument"@)
        } else {
            ls_from(args, i + 2, LsView { start_path: args[i + 1], ..v }, usage)
        }
    } else if args[i] == "-t"@ || args[i] == "--type"@ {
        ls_from(args, i + 1, LsView { show_type: true, ..v }, usage)
    } else if args[i].len() > 0 && args[i][0] == '-' {
        Err("unknown flag: "@ + args[i] + "\n\n"@ + usage)
    } else if v.image is Some {
        Err("only one image argument allowed"@)
    } else {
        ls_from(args, i + 1, LsView { image: Some(args[i]), ..v }, usage)
    }
}

/// What the arguments of a listing ask for.
pub open spec fn ls_asked(args: Seq<Seq<char>>, usage: Seq<char>) -> Result<
    Option<LsView>,
    Seq<char>,
> {
    match ls_from(args, 0, LsView { image: None, start_path: "/"@, show_type: false }, usage) {
        Err(m) => Err(m),
        Ok(None) => Ok(None),
        Ok(Some(v)) => if v.image is None {
            Err("missing <image> argument\n\n"@ + usage)
        } else {
            Ok(Some(v))
        },
    }
}

/// Reads the arguments of a listing, or gives `None` where help is asked for.
pub fn parse_ls_args(args: &[String], usage: &str) -> (res: Result<Option<LsArgs>, String>)
    ensures
        match (res, ls_asked(text::texts(args@), usage@)) {
            (Ok(Some(a)), Ok(Some(v))) => Some(a.image@) == v.image && a.start_path@
                == v.start_path && a.show_type == v.show_type,
            (Ok(None), Ok(None)) => true,
            (Err(m), Err(w)) => m@ == w,
            _ => false,
        },
{
    let ghost list = text::texts(args@);
    let total: usize = args.len();
    let mut image: Option<String> = None;
    let mut start_path: String = "/".to_owned();
    let mut show_type: bool = false;
    let mut i: usize = 0;
    while i < total
        invariant
            list == text::texts(args@),
            total == args@.len(),
            i <= total,
            ls_from(
                list,
                i as int,
                (LsView { image: text::text_of(image), start_path: start_path@, show_type }),
                usage@,
            ) == ls_from(
                list,
                0,
                (LsView { image: None, start_path: "/"@, show_type: false }),
                usage@,
            ),
        decreases total - i,
    {
        assert(list[i as int] == args@[i as int]@);
        let arg: &str = args[i].as_str();
        let chars: Vec<char> = chars_of(arg);
        if same_text(arg, "-h") || same_text(arg, "--help") {
            return Ok(None);
        }
        if same_text(arg, "-p") || same_text(arg, "--path") {
            if i + 1 >= total {
                return Err(arg.to_owned().concat(" requires a path argument"));
            }
            assert(list[i + 1] == args@[i + 1]@);
            start_path = args[i + 1].clone();
            i = i + 2;
        } else if same_text(arg, "-t") || same_text(arg, "--type") {
            show_type = true;
            i = i + 1;
        } else if chars.len() > 0 && chars[0] == '-' {
            return Err(
                "unknown flag: ".to_owned().concat(arg).concat("\n\n").concat(usage),
            );
        } else {
            if image.is_some() {
                return Err("only one image argument allowed".to_owned());
            }
            image = Some(arg.to_owned());
            i = i + 1;
        }
    }
    match image {
        None => Err("missing <image> argument\n\n".to_owned().concat(usage)),
        Some(image) => Ok(Some(LsArgs { image, start_path, show_type })),
    }
}

/// `a` comes before `b`, or they are the same: by the first character that
/// differs, and the shorter before the longer.
pub open spec fn not_behind(a: Seq<char>, b: Seq<char>) -> bool
    decreases a.len(),
{
    if a.len() == 0 {
        true
    } else if b.len() == 0 {
        false
    } else if a[0] == b[0] {
        not_behind(a.skip(1), b.skip(1))
    } else {
        (a[0] as int) < (b[0] as int)
    }
}

fn comes_first(a: &[char], b: &[char]) -> (yes: bool)
    ensures
        yes == not_behind(a@, b@),
{
    let mut i: usize = 0;
    proof {
        assert(a@.skip(0) =~= a@ && b@.skip(0) =~= b@);
    }
    while i < a.len() && i < b.len()
        invariant
            i <= a@.len(),
            i <= b@.len(),
            not_behind(a@.skip(i as int), b@.skip(i as int)) == not_behind(a@, b@),
        decreases a.len() - i,
    {
        proof {
            assert(a@.skip(i as int).skip(1) =~= a@.skip(i + 1));
            assert(b@.skip(i as int).skip(1) =~= b@.skip(i + 1));
        }
        if a[i] != b[i] {
            return a[i] < b[i];
        }
        i = i + 1;
    }
    i == a.len()
}

proof fn lemma_order_is_total(a: Seq<char>, b: Seq<char>)
    ensures
        not_behind(a, b) || not_behind(b, a),
    decreases a.len(),
{
    if a.len() > 0 && b.len() > 0 && a[0] == b[0] {
        lemma_order_is_total(a.skip(1), b.skip(1));
    }
}

proof fn lemma_order_is_transitive(a: Seq<char>, b: Seq<char>, c: Seq<char>)
    requires
        not_behind(a, b),
        not_behind(b, c),
    ensures
        not_behind(a, c),
    decreases a.len(),
{
    if a.len() > 0 && b.len() > 0 && c.len() > 0 && a[0] == b[0] && b[0] == c[0] {
        lemma_order_is_transitive(a.skip(1), b.skip(1), c.skip(1));
    }
}

/// The entries are in the order of their names.
pub open spec fn by_name(list: Seq<DirEntry>) -> bool {
    forall|i: int, j: int|
        0 <= i < j < list.len() ==> not_behind(
            (#[trigger] list[i]).name@,
            (#[trigger] list[j]).name@,
        )
}

/// The entries with the name.
pub open spec fn with_name(list: Seq<DirEntry>, name: Seq<char>) -> Seq<DirEntry> {
    list.filter(|e: DirEntry| e.name@ == name)
}

fn insert_by_name(list: &mut Vec<DirEntry>, e: DirEntry)
    requires
        by_name(old(list)@),
    ensures
        by_name(final(list)@),
        forall|name: Seq<char>| #[trigger]
            with_name(final(list)@, name) == with_name(old(list)@.push(e), name),
        final(list)@.to_multiset() == old(list)@.to_multiset().insert(e),
        final(list)@.len() == old(list)@.len() + 1,
{
    let name: Vec<char> = chars_of(e.name.as_str());
    let mut at: usize = list.len();
    while at > 0
        invariant
            list@ == old(list)@,
            by_name(list@),
            name@ == e.name@,
            at <= list@.len(),
            forall|j: int|
                at <= j < list@.len() ==> !not_behind((#[trigger] list@[j]).name@, e.name@),
        decreases at,
    {
        let other: Vec<char> = chars_of(list[at - 1].name.as_str());
        if comes_first(other.as_slice(), name.as_slice()) {
            let ghost had = list@;
            proof {
                lemma_insert_keeps_order(had, at as int, e);
                lemma_insert_is_stable(had, at as int, e);
                vstd::seq_lib::to_multiset_insert(had, at as int, e);
            }
            list.insert(at, e);
            return ;
        }
        at = at - 1;
    }
    let ghost had = list@;
    proof {
        lemma_insert_keeps_order(had, 0, e);
        lemma_insert_is_stable(had, 0, e);
        vstd::seq_lib::to_multiset_insert(had, 0, e);
    }
    list.insert(0, e);
}

proof fn lemma_insert_keeps_order(list: Seq<DirEntry>, at: int, e: DirEntry)
    requires
        by_name(list),
        0 <= at <= list.len(),
        at > 0 ==> not_behind(list[at - 1].name@, e.name@),
        forall|j: int|
            at <= j < list.len() ==> !not_behind((#[trigger] list[j]).name@, e.name@),
    ensures
        by_name(list.insert(at, e)),
{
    let new = list.insert(at, e);
    assert forall|i: int, j: int| 0 <= i < j < new.len() implies not_behind(
        (#[trigger] new[i]).name@,
        (#[trigger] new[j]).name@,
    ) by {
        if i == at {
            assert(new[j] == list[j - 1]);
            lemma_order_is_total(list[j - 1].name@, e.name@);
        } else if j == at {
            assert(new[i] == list[i]);
            if i < at - 1 {
                lemma_order_is_transitive(list[i].name@, list[at - 1].name@, e.name@);
            }
        } else {
            let a = if i < at {
                i
            } else {
                i - 1
            };
            let b = if j < at {
                j
            } else {
                j - 1
            };
            assert(new[i] == list[a] && new[j] == list[b]);
        }
    }
}

proof fn lemma_order_is_reflexive(a: Seq<char>)
    ensures
        not_behind(a, a),
    decreases a.len(),
{
    if a.len() > 0 {
        lemma_order_is_reflexive(a.skip(1));
    }
}

proof fn lemma_none_with_name(list: Seq<DirEntry>, name: Seq<char>)
    requires
        forall|j: int| 0 <= j < list.len() ==> (#[trigger] list[j]).name@ != name,
    ensures
        with_name(list, name) == Seq::<DirEntry>::empty(),
    decreases list.len(),
{
    reveal(Seq::filter);
    if list.len() > 0 {
        lemma_none_with_name(list.drop_last(), name);
    }
}

proof fn lemma_insert_is_stable(list: Seq<DirEntry>, at: int, e: DirEntry)
    requires
        0 <= at <= list.len(),
        forall|j: int|
            at <= j < list.len() ==> !not_behind((#[trigger] list[j]).name@, e.name@),
    ensures
        forall|name: Seq<char>| #[trigger]
            with_name(list.insert(at, e), name) == with_name(list.push(e), name),
{
    let a = list.take(at);
    let b = list.skip(at);
    assert forall|name: Seq<char>| #[trigger]
        with_name(list.insert(at, e), name) == with_name(list.push(e), name) by {
        let pick = |x: DirEntry| x.name@ == name;
        assert(list =~= a + b);
        assert(list.insert(at, e) =~= a + (seq![e] + b));
        assert(list.push(e) =~= a + (b + seq![e]));
        Seq::filter_distributes_over_add(a, seq![e] + b, pick);
        Seq::filter_distributes_over_add(a, b + seq![e], pick);
        Seq::filter_distributes_over_add(seq![e], b, pick);
        Seq::filter_distributes_over_add(b, seq![e], pick);
        if name == e.name@ {
            lemma_order_is_reflexive(name);
            assert forall|j: int| 0 <= j < b.len() implies (#[trigger] b[j]).name@ != name by {
                assert(b[j] == list[at + j]);
            }
            lemma_none_with_name(b, name);
            assert(b.filter(pick) =~= Seq::<DirEntry>::empty());
            assert(seq![e].filter(pick) + b.filter(pick) =~= b.filter(pick) + seq![e].filter(pick));
        } else {
            lemma_none_with_name(seq![e], name);
            assert(seq![e].filter(pick) =~= Seq::<DirEntry>::empty());
            assert(seq![e].filter(pick) + b.filter(pick) =~= b.filter(pick) + seq![e].filter(pick));
        }
    }
}

/// An entry that a listing shows: not the directory itself or its parent.
pub open spec fn is_shown(e: DirEntry) -> bool {
    e.name@ != "."@ && e.name@ != ".."@
}

/// The entries that a listing shows, in the order of their names. Those with the
/// same name stay in the order that they came in.
pub fn shown_entries(entries: Vec<DirEntry>) -> (list: Vec<DirEntry>)
    ensures
        by_name(list@),
        list@.to_multiset() == entries@.filter(|e: DirEntry| is_shown(e)).to_multiset(),
        forall|name: Seq<char>| #[trigger]
            with_name(list@, name) == with_name(
                entries@.filter(|e: DirEntry| is_shown(e)),
                name,
            ),
{
    let ghost all = entries@;
    let ghost pick = |e: DirEntry| is_shown(e);
    let mut rest: Vec<DirEntry> = entries;
    let mut list: Vec<DirEntry> = Vec::new();
    let ghost mut seen: int = 0;
    proof {
        assert(all.take(0) =~= Seq::<DirEntry>::empty());
        assert(all.take(0).filter(pick) =~= Seq::<DirEntry>::empty()) by {
            reveal(Seq::filter);
        }
        assert(list@ =~= Seq::<DirEntry>::empty());
        assert(all.skip(0) =~= all);
    }
    while rest.len() > 0
        invariant
            pick == |e: DirEntry| is_shown(e),
            0 <= seen <= all.len(),
            rest@ == all.skip(seen),
            by_name(list@),
            list@.to_multiset() == all.take(seen).filter(pick).to_multiset(),
            forall|name: Seq<char>| #[trigger]
                with_name(list@, name) == with_name(all.take(seen).filter(pick), name),
        decreases rest.len(),
    {
        let e: DirEntry = rest.remove(0);
        proof {
            let more = all.take(seen + 1);
            assert(e == all[seen]);
            assert(rest@ =~= all.skip(seen + 1));
            assert(more.drop_last() =~= all.take(seen));
            assert(more.last() == e);
            assert(more.filter(pick) =~= if pick(e) {
                all.take(seen).filter(pick).push(e)
            } else {
                all.take(seen).filter(pick)
            }) by {
                reveal(Seq::filter);
            }
            vstd::seq_lib::to_multiset_build(all.take(seen).filter(pick), e);
        }
        let shown: bool = !same_text(e.name.as_str(), ".") && !same_text(e.name.as_str(), "..");
        let ghost had = list@;
        if shown {
            insert_by_name(&mut list, e);
            proof {
                let before = all.take(seen).filter(pick);
                assert forall|name: Seq<char>| #[trigger]
                    with_name(list@, name) == with_name(before.push(e), name) by {
                    let same = |x: DirEntry| x.name@ == name;
                    assert(had.push(e) =~= had + seq![e]);
                    assert(before.push(e) =~= before + seq![e]);
                    Seq::filter_distributes_over_add(had, seq![e], same);
                    Seq::filter_distributes_over_add(before, seq![e], same);
                    assert(with_name(had, name) == with_name(before, name));
                    assert(with_name(list@, name) == with_name(had.push(e), name));
                }
            }
        }
        proof {
            seen = seen + 1;
        }
    }
    proof {
        assert(all.skip(seen).len() == 0);
        assert(all.take(seen) =~= all);
    }
    list
}

/// The letter for a type.
pub open spec fn type_letter(t: FileType) -> Seq<char> {
    match t {
        FileType::Directory => "d"@,
        FileType::Regular => "f"@,
        FileType::Symlink => "l"@,
        FileType::Junction => "j"@,
        FileType::Other => "?"@,
    }
}

/// The line for an entry of `dir`.
pub open spec fn line_of(dir: Seq<char>, e: DirEntry, show_type: bool) -> Seq<char> {
    if show_type {
        type_letter(e.file_type) + " "@ + paths::child_of(dir, e.name@)
    } else {
        paths::child_of(dir, e.name@)
    }
}

/// The lines for the entries of `dir`.
pub fn listing_lines(dir: &str, entries: &[DirEntry], show_type: bool) -> (lines: Vec<String>)
    ensures
        lines@.len() == entries@.len(),
        forall|i: int|
            0 <= i < entries@.len() ==> (#[trigger] lines@[i])@ == line_of(
                dir@,
                entries@[i],
                show_type,
            ),
{
    let mut lines: Vec<String> = Vec::new();
    let mut i: usize = 0;
    while i < entries.len()
        invariant
            i <= entries@.len(),
            lines@.len() == i,
            forall|k: int|
                0 <= k < i ==> (#[trigger] lines@[k])@ == line_of(dir@, entries@[k], show_type),
        decreases entries.len() - i,
    {
        let e: &DirEntry = &entries[i];
        let full: String = child_path(dir, e.name.as_str());
        if show_type {
            let letter: &str = match e.file_type {
                FileType::Directory => "d",
                FileType::Regular => "f",
                FileType::Symlink => "l",
                FileType::Junction => "j",
                FileType::Other => "?",
            };
            lines.push(letter.to_owned().concat(" ").concat(full.as_str()));
        } else {
            lines.push(full);
        }
        i = i + 1;
    }
    lines
}

/// The paths of the directories among the first `n` entries of `dir`, the last
/// first.
pub open spec fn subdirectories(dir: Seq<char>, entries: Seq<DirEntry>, n: int) -> Seq<Seq<char>>
    decreases n,
{
    if n <= 0 {
        Seq::empty()
    } else if entries[n - 1].file_type == FileType::Directory {
        seq![paths::child_of(dir, entries[n - 1].name@)] + subdirectories(dir, entries, n - 1)
    } else {
        subdirectories(dir, entries, n - 1)
    }
}

/// The paths of the directories among the entries of `dir`, the last first: the
/// order in which they are put on a stack, so that the first comes off first.
pub fn child_directories(dir: &str, entries: &[DirEntry]) -> (paths: Vec<String>)
    ensures
        text::texts(paths@) == subdirectories(dir@, entries@, entries@.len() as int),
{
    let mut out: Vec<String> = Vec::new();
    let mut i: usize = entries.len();
    let ghost want = subdirectories(dir@, entries@, entries@.len() as int);
    proof {
        assert(text::texts(out@) =~= Seq::<Seq<char>>::empty());
        assert(text::texts(out@) + want =~= want);
    }
    while i > 0
        invariant
            i <= entries@.len(),
            text::texts(out@) + subdirectories(dir@, entries@, i as int) == want,
            want == subdirectories(dir@, entries@, entries@.len() as int),
        decreases i,
    {
        let e: &DirEntry = &entries[i - 1];
        let ghost had = text::texts(out@);
        let ghost rest = subdirectories(dir@, entries@, i - 1);
        if e.file_type == FileType::Directory {
            let p: String = child_path(dir, e.name.as_str());
            let ghost one = p@;
            out.push(p);
            proof {
                assert(text::texts(out@) =~= had.push(one));
                assert(had + (seq![one] + rest) =~= had.push(one) + rest);
            }
        }
        i = i - 1;
    }
    proof {
        assert(text::texts(out@) + Seq::<Seq<char>>::empty() =~= text::texts(out@));
    }
    out
}

/// A listing that goes down into the directories that it lists.
pub struct Walk {
    /// The directories that are still to be listed, the next one last.
    pub pending: Vec<String>,
    pub show_type: bool,
}

impl Walk {
    /// A walk that begins with `start`.
    pub fn new(start: String, show_type: bool) -> (w: Self)
        ensures
            text::texts(w.pending@) == seq![start@],
            w.show_type == show_type,
    {
        let ghost first = start@;
        let mut pending: Vec<String> = Vec::new();
        pending.push(start);
        proof {
            assert(text::texts(pending@) =~= seq![first]);
        }
        Walk { pending, show_type }
    }

    /// The directory that is to be listed next, or `None` at the end.
    pub fn next(&mut self) -> (dir: Option<String>)
        ensures
            final(self).show_type == old(self).show_type,
            match dir {
                Some(d) => {
                    &&& old(self).pending@.len() > 0
                    &&& d == old(self).pending@.last()
                    &&& final(self).pending@ == old(self).pending@.drop_last()
                },
                None => old(self).pending@.len() == 0 && final(self).pending@ == old(
                    self,
                ).pending@,
            },
    {
        self.pending.pop()
    }

    /// Takes the entries of the directory `dir`, and gives the lines that they are
    /// listed with. The directories among them come next, in the order of the
    /// lines.
    pub fn accept(&mut self, dir: &str, entries: Vec<DirEntry>) -> (lines: Vec<String>)
        ensures
            final(self).show_type == old(self).show_type,
            exists|shown: Seq<DirEntry>| #[trigger]
                is_shown_list(shown, entries@) && is_walked(
                    dir@,
                    shown,
                    old(self).show_type,
                    text::texts(old(self).pending@),
                    text::texts(final(self).pending@),
                    text::texts(lines@),
                ),
    {
        let ghost all = entries@;
        let ghost before = text::texts(self.pending@);
        let shown: Vec<DirEntry> = shown_entries(entries);
        let lines: Vec<String> = listing_lines(dir, shown.as_slice(), self.show_type);
        let mut below: Vec<String> = child_directories(dir, shown.as_slice());
        let ghost added = text::texts(below@);
        self.pending.append(&mut below);
        proof {
            assert(text::texts(self.pending@) =~= before + added);
            assert(is_shown_list(shown@, all));
            let show_type = old(self).show_type;
            assert(text::texts(lines@) =~= shown@.map_values(
                |e: DirEntry| line_of(dir@, e, show_type),
            ));
            assert(is_walked(
                dir@,
                shown@,
                show_type,
                before,
                text::texts(self.pending@),
                text::texts(lines@),
            ));
        }
        lines
    }
}

/// `shown` are the entries that a listing shows, in the order of their names and
/// otherwise in their own.
pub open spec fn is_shown_list(shown: Seq<DirEntry>, entries: Seq<DirEntry>) -> bool {
    &&& by_name(shown)
    &&& shown.to_multiset() == entries.filter(|e: DirEntry| is_shown(e)).to_multiset()
    &&& forall|name: Seq<char>| #[trigger]
        with_name(shown, name) == with_name(entries.filter(|e: DirEntry| is_shown(e)), name)
}

/// The lines are those of the shown entries, and the directories among them were
/// put behind those that were pending.
pub open spec fn is_walked(
    dir: Seq<char>,
    shown: Seq<DirEntry>,
    show_type: bool,
    before: Seq<Seq<char>>,
    after: Seq<Seq<char>>,
    lines: Seq<Seq<char>>,
) -> bool {
    &&& after == before + subdirectories(dir, shown, shown.len() as int)
    &&& lines == shown.map_values(|e: DirEntry| line_of(dir, e, show_type))
}

/// A walk goes down before it goes on: the directory that comes after `dir` is the
/// first of those among its entries, where there is one.
pub proof fn lemma_walk_goes_down(
    dir: Seq<char>,
    shown: Seq<DirEntry>,
    i: int,
    n: int,
    before: Seq<Seq<char>>,
)
    requires
        0 <= i < n <= shown.len(),
        shown[i].file_type == FileType::Directory,
        forall|k: int| 0 <= k < i ==> (#[trigger] shown[k]).file_type != FileType::Directory,
    ensures
        (before + subdirectories(dir, shown, n)).last() == paths::child_of(dir, shown[i].name@),
        subdirectories(dir, shown, n).len() > 0,
    decreases n,
{
    if n == i + 1 {
        lemma_no_directories(dir, shown, i);
    } else {
        lemma_walk_goes_down(dir, shown, i, n - 1, before);
    }
}

proof fn lemma_no_directories(dir: Seq<char>, shown: Seq<DirEntry>, n: int)
    requires
        0 <= n <= shown.len(),
        forall|k: int| 0 <= k < n ==> (#[trigger] shown[k]).file_type != FileType::Directory,
    ensures
        subdirectories(dir, shown, n) == Seq::<Seq<char>>::empty(),
    decreases n,
{
    if n > 0 {
        lemma_no_directories(dir, shown, n - 1);
    }
}

/// The word for a type.
pub open spec fn type_word(t: FileType) -> Seq<char> {
    match t {
        FileType::Directory => "dir"@,
        FileType::Regular => "file"@,
        FileType::Symlink => "link"@,
        FileType::Junction => "junction"@,
        FileType::Other => "other"@,
    }
}

/// The word for a type.
pub fn type_name_of(t: FileType) -> (s: String)
    ensures
        s@ == type_word(t),
{
    match t {
        FileType::Directory => "dir".to_owned(),
        FileType::Regular => "file".to_owned(),
        FileType::Symlink => "link".to_owned(),
        FileType::Junction => "junction".to_owned(),
        FileType::Other => "other".to_owned(),
    }
}

/// The line for an entry where its record is told too.
pub open spec fn record_line(e: DirEntry) -> Seq<char> {
    type_word(e.file_type) + "\t"@ + text::dec(e.file_record_number as nat) + "\t"@ + e.name@
}

/// The lines for the first `n` entries, without the directory itself and its
/// parent, each with its record.
pub open spec fn record_lines(entries: Seq<DirEntry>, n: int) -> Seq<Seq<char>>
    decreases n,
{
    if n <= 0 {
        Seq::empty()
    } else if is_shown(entries[n - 1]) {
        record_lines(entries, n - 1).push(record_line(entries[n - 1]))
    } else {
        record_lines(entries, n - 1)
    }
}

/// What enumerating a directory prints: a line for each entry, and the number of
/// them.
pub fn enumerate_lines(entries: &[DirEntry]) -> (lines: Vec<String>)
    ensures
        ({
            let list = record_lines(entries@, entries@.len() as int);
            text::texts(lines@) == list.push("count="@ + text::dec(list.len()))
        }),
{
    let mut lines: Vec<String> = Vec::new();
    let mut i: usize = 0;
    proof {
        assert(text::texts(lines@) =~= Seq::<Seq<char>>::empty());
    }
    while i < entries.len()
        invariant
            i <= entries@.len(),
            text::texts(lines@) == record_lines(entries@, i as int),
        decreases entries.len() - i,
    {
        let e: &DirEntry = &entries[i];
        let shown: bool = !same_text(e.name.as_str(), ".") && !same_text(e.name.as_str(), "..");
        if shown {
            let ghost had = text::texts(lines@);
            let line: String = type_name_of(e.file_type).concat("\t").concat(
                decimal(e.file_record_number).as_str(),
            ).concat("\t").concat(e.name.as_str());
            let ghost one = line@;
            lines.push(line);
            proof {
                assert(text::texts(lines@) =~= had.push(one));
            }
        }
        i = i + 1;
    }
    let ghost had = text::texts(lines@);
    let count: String = "count=".to_owned().concat(decimal(lines.len() as u64).as_str());
    let ghost one = count@;
    lines.push(count);
    proof {
        assert(text::texts(lines@) =~= had.push(one));
    }
    lines
}
/// What looking at a file prints.
pub open spec fn stat_text(a: Attr) -> Seq<Seq<char>> {
    seq![
        "rec_num="@ + text::dec(a.file_record_number as nat),
        "size="@ + text::dec(a.size as nat),
        "mode="@ + text::oct(a.mode as nat),
        "link_count="@ + text::dec(a.link_count as nat),
        "type="@ + type_word(a.file_type),
    ]
}

/// What looking at a file prints.
pub fn stat_lines(a: &Attr) -> (lines: Vec<String>)
    ensures
        text::texts(lines@) == stat_text(*a),
{
    let mut lines: Vec<String> = Vec::new();
    lines.push("rec_num=".to_owned().concat(decimal(a.file_record_number).as_str()));
    lines.push("size=".to_owned().concat(decimal(a.size).as_str()));
    lines.push("mode=".to_owned().concat(octal(a.mode as u64).as_str()));
    lines.push("link_count=".to_owned().concat(decimal(a.link_count as u64).as_str()));
    lines.push("type=".to_owned().concat(type_name_of(a.file_type).as_str()));
    proof {
        assert(text::texts(lines@) =~= stat_text(*a));
    }
    lines
}

} // verus!
