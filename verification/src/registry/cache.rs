//! Parsed artefacts, by path.

use vstd::prelude::*;

use crate::text::{chars_of, same_text};

verus! {

/// What stands between the separators of a path; the whole of it where there is none.
pub open spec fn segments(path: Seq<char>) -> Seq<Seq<char>>
    decreases path.len(),
{
    if path.len() == 0 {
        seq![seq![]]
    } else {
        let front = segments(path.drop_last());
        if path.last() == '/' {
            front.push(seq![])
        } else {
            front.drop_last().push(front.last().push(path.last()))
        }
    }
}

/// Whether a segment counts as a component: an empty one does not, nor does `.` anywhere but at
/// the beginning.
pub open spec fn counts(segment: Seq<char>, is_first: bool) -> bool {
    segment.len() > 0 && (segment != "."@ || is_first)
}

/// The segments that count.
pub open spec fn counted(segments: Seq<Seq<char>>) -> Seq<Seq<char>>
    decreases segments.len(),
{
    if segments.len() == 0 {
        seq![]
    } else {
        let front = counted(segments.drop_last());
        if counts(segments.last(), segments.len() == 1) {
            front.push(segments.last())
        } else {
            front
        }
    }
}

/// What a path is taken for: whether it starts at the root, and its components. Repeated and
/// trailing separators make no difference, nor does `.` but at the beginning.
pub open spec fn path_key(path: Seq<char>) -> (bool, Seq<Seq<char>>) {
    (path.len() > 0 && path[0] == '/', counted(segments(path)))
}

/// A path taken apart.
pub struct PathKey {
    root: bool,
    components: Vec<String>,
}

/// The texts of strings.
spec fn texts(strings: Seq<String>) -> Seq<Seq<char>> {
    Seq::new(strings.len(), |i: int| strings[i]@)
}

impl View for PathKey {
    type V = (bool, Seq<Seq<char>>);

    closed spec fn view(&self) -> (bool, Seq<Seq<char>>) {
        (self.root, texts(self.components@))
    }
}

/// Add a segment to the components, if it counts.
fn push_counted(components: &mut Vec<String>, segment: String, is_first: bool)
    ensures
        texts(final(components)@) == if counts(segment@, is_first) {
            texts(old(components)@).push(segment@)
        } else {
            texts(old(components)@)
        },
{
    if chars_of(segment.as_str()).len() > 0 && (is_first || !same_text(segment.as_str(), ".")) {
        components.push(segment);
        assert(texts(components@) =~= texts(old(components)@).push(segment@));
    }
}

impl PathKey {
    /// Take a path apart.
    pub fn new(path: &str) -> (key: Self)
        ensures
            key@ == path_key(path@),
    {
        let chars = chars_of(path);
        let mut components: Vec<String> = Vec::new();
        let mut segment = String::new();
        let mut is_first = true;
        let mut i: usize = 0;
        proof {
            assert(chars@.take(0) =~= seq![]);
            assert(segments(chars@.take(0)).drop_last() =~= seq![]);
            assert(segment@ =~= segments(chars@.take(0)).last());
            assert(texts(components@) =~= seq![]);
        }
        while i < chars.len()
            invariant
                i <= chars@.len(),
                segments(chars@.take(i as int)).len() > 0,
                is_first == (segments(chars@.take(i as int)).len() == 1),
                segment@ == segments(chars@.take(i as int)).last(),
                texts(components@) == counted(segments(chars@.take(i as int)).drop_last()),
            decreases chars@.len() - i,
        {
            let ghost so_far = segments(chars@.take(i as int));
            let ghost next = segments(chars@.take(i + 1));
            proof {
                assert(chars@.take(i + 1).drop_last() =~= chars@.take(i as int));
            }
            if chars[i] == '/' {
                proof {
                    assert(next.drop_last() =~= so_far);
                }
                push_counted(&mut components, segment, is_first);
                segment = String::new();
                is_first = false;
                assert(segment@ =~= next.last());
            } else {
                proof {
                    assert(next.drop_last() =~= so_far.drop_last());
                }
                segment.push(chars[i]);
            }
            i += 1;
        }
        assert(chars@.take(i as int) =~= path@);
        push_counted(&mut components, segment, is_first);
        PathKey { root: chars.len() > 0 && chars[0] == '/', components }
    }

    /// Whether two paths are taken for the same.
    pub fn same(&self, other: &PathKey) -> (r: bool)
        ensures
            r == (self@ == other@),
    {
        if self.root != other.root || self.components.len() != other.components.len() {
            assert(self@.1.len() == self.components@.len() && other@.1.len()
                == other.components@.len());
            return false;
        }
        let mut i: usize = 0;
        while i < self.components.len()
            invariant
                i <= self.components@.len(),
                self.root == other.root,
                self.components@.len() == other.components@.len(),
                forall|j: int|
                    0 <= j < i ==> (#[trigger] self.components@[j])@ == other.components@[j]@,
            decreases self.components@.len() - i,
        {
            if !same_text(self.components[i].as_str(), other.components[i].as_str()) {
                assert(self@.1[i as int] != other@.1[i as int]);
                return false;
            }
            i += 1;
        }
        assert(self@.1 =~= other@.1);
        true
    }
}

/// What has been read, by path. An entry is never replaced or removed: every later read of a path
/// answers from the first. Two spellings of a path are one path if their components are the same.
pub struct ArtefactCache<T> {
    entries: Vec<(PathKey, T)>,
}

/// The contents of a list of entries.
spec fn contents<T>(entries: Seq<(PathKey, T)>) -> Map<(bool, Seq<Seq<char>>), T>
    decreases entries.len(),
{
    if entries.len() == 0 {
        Map::empty()
    } else {
        contents(entries.drop_last()).insert(entries.last().0@, entries.last().1)
    }
}

spec fn distinct<T>(entries: Seq<(PathKey, T)>) -> bool {
    forall|i: int, j: int|
        0 <= i < j < entries.len() ==> (#[trigger] entries[i]).0@ != (#[trigger] entries[j]).0@
}

proof fn lemma_contents<T>(entries: Seq<(PathKey, T)>)
    requires
        distinct(entries),
    ensures
        forall|i: int|
            0 <= i < entries.len() ==> contents(entries).contains_key((#[trigger] entries[i]).0@)
                && contents(entries)[entries[i].0@] == entries[i].1,
        forall|key: (bool, Seq<Seq<char>>)| #[trigger]
            contents(entries).contains_key(key) ==> exists|i: int|
                0 <= i < entries.len() && (#[trigger] entries[i]).0@ == key,
    decreases entries.len(),
{
    if entries.len() > 0 {
        let front = entries.drop_last();
        lemma_contents(front);
        assert(forall|i: int| 0 <= i < front.len() ==> #[trigger] front[i] == entries[i]);
        assert forall|i: int| 0 <= i < entries.len() implies contents(entries).contains_key(
            (#[trigger] entries[i]).0@,
        ) && contents(entries)[entries[i].0@] == entries[i].1 by {
            if i < front.len() {
                assert(front[i] == entries[i]);
                assert(entries[i].0@ != entries[entries.len() - 1].0@);
            }
        }
        assert forall|key: (bool, Seq<Seq<char>>)| #[trigger]
            contents(entries).contains_key(key) implies exists|i: int|
            0 <= i < entries.len() && (#[trigger] entries[i]).0@ == key by {
            if key == entries.last().0@ {
                assert(entries[entries.len() - 1].0@ == key);
            } else {
                assert(contents(front).contains_key(key));
                let i = choose|i: int| 0 <= i < front.len() && (#[trigger] front[i]).0@ == key;
                assert(entries[i].0@ == key);
            }
        }
    }
}

impl<T> View for ArtefactCache<T> {
    type V = Map<(bool, Seq<Seq<char>>), T>;

    /// What each path was found to hold.
    closed spec fn view(&self) -> Map<(bool, Seq<Seq<char>>), T> {
        contents(self.entries@)
    }
}

impl<T> ArtefactCache<T> {
    #[verifier::type_invariant]
    spec fn wf(self) -> bool {
        distinct(self.entries@)
    }

    pub fn new() -> (c: Self)
        ensures
            c@ == Map::<(bool, Seq<Seq<char>>), T>::empty(),
    {
        ArtefactCache { entries: Vec::new() }
    }

    /// What was read at `path`, if it has been read.
    pub fn get(&self, path: &str) -> (r: Option<&T>)
        ensures
            match r {
                Some(t) => self@.contains_key(path_key(path@)) && self@[path_key(path@)] == *t,
                None => !self@.contains_key(path_key(path@)),
            },
    {
        proof {
            use_type_invariant(self);
            lemma_contents(self.entries@);
        }
        let key = PathKey::new(path);
        let mut i: usize = 0;
        while i < self.entries.len()
            invariant
                i <= self.entries@.len(),
                key@ == path_key(path@),
                forall|j: int| 0 <= j < i ==> (#[trigger] self.entries@[j]).0@ != key@,
                self@ == contents(self.entries@),
                forall|j: int|
                    0 <= j < self.entries@.len() ==> contents(self.entries@).contains_key(
                        (#[trigger] self.entries@[j]).0@,
                    ) && contents(self.entries@)[self.entries@[j].0@] == self.entries@[j].1,
            decreases self.entries@.len() - i,
        {
            if self.entries[i].0.same(&key) {
                assert(self.entries@[i as int].0@ == key@);
                return Some(&self.entries[i].1);
            }
            i += 1;
        }
        None
    }

    /// Remember what was read at `path`. A path that has been read already keeps its first answer.
    pub fn insert(&mut self, path: &str, value: T)
        ensures
            old(self)@.contains_key(path_key(path@)) ==> final(self)@ == old(self)@,
            !old(self)@.contains_key(path_key(path@)) ==> final(self)@ == old(self)@.insert(
                path_key(path@),
                value,
            ),
    {
        if self.get(path).is_some() {
            return;
        }
        proof {
            use_type_invariant(&*self);
            lemma_contents(self.entries@);
        }
        let ghost before = self.entries@;
        let mut entries: Vec<(PathKey, T)> = Vec::new();
        std::mem::swap(&mut entries, &mut self.entries);
        entries.push((PathKey::new(path), value));
        assert(entries@.drop_last() =~= before);
        self.entries = entries;
    }
}

/// Segments with separators between them.
pub open spec fn slash_joined(parts: Seq<Seq<char>>) -> Seq<char>
    decreases parts.len(),
{
    if parts.len() == 0 {
        seq![]
    } else if parts.len() == 1 {
        parts[0]
    } else {
        slash_joined(parts.drop_last()).push('/') + parts.last()
    }
}

proof fn lemma_slash_joined_grows(parts: Seq<Seq<char>>, c: char)
    requires
        parts.len() > 0,
    ensures
        slash_joined(parts.drop_last().push(parts.last().push(c))) == slash_joined(parts).push(c),
        slash_joined(parts.push(seq![])) == slash_joined(parts).push('/'),
{
    let grown = parts.drop_last().push(parts.last().push(c));
    assert(grown.drop_last() =~= parts.drop_last());
    assert(slash_joined(grown) =~= slash_joined(parts).push(c));
    let more = parts.push(seq![]);
    assert(more.drop_last() =~= parts);
    assert(slash_joined(more) =~= slash_joined(parts).push('/'));
}

/// A path is its segments with separators between them, and no segment has a separator in it.
pub proof fn lemma_segments_are_between_separators(path: Seq<char>)
    ensures
        segments(path).len() > 0,
        slash_joined(segments(path)) == path,
        forall|i: int, j: int|
            0 <= i < segments(path).len() && 0 <= j < segments(path)[i].len()
                ==> #[trigger] segments(path)[i][j] != '/',
    decreases path.len(),
{
    if path.len() > 0 {
        let front = segments(path.drop_last());
        lemma_segments_are_between_separators(path.drop_last());
        lemma_slash_joined_grows(front, path.last());
        assert(path.drop_last().push(path.last()) =~= path);
        assert forall|i: int, j: int|
            0 <= i < segments(path).len() && 0 <= j < segments(
                path,
            )[i].len() implies #[trigger] segments(path)[i][j] != '/' by {
            if i < front.len() - 1 {
                assert(front[i][j] != '/');
            } else if path.last() != '/' {
                if j < front.last().len() {
                    assert(front[front.len() - 1][j] != '/');
                }
            } else if i < front.len() {
                assert(front[i][j] != '/');
            }
        }
    } else {
        assert(slash_joined(segments(path)) =~= path);
    }
}

/// The components of a path are its first segment unless that is empty, and of the others those
/// that are neither empty nor `.`. A path is taken for one that starts at the root exactly where a
/// separator is its first character.
pub proof fn lemma_components_of_a_path(path: Seq<char>)
    ensures
        ({
            let all = segments(path);
            let first = if all[0].len() > 0 {
                seq![all[0]]
            } else {
                Seq::<Seq<char>>::empty()
            };
            path_key(path).1 == first + all.skip(1).filter(
                |s: Seq<char>| s.len() > 0 && s != "."@,
            )
        }),
        path_key(path).0 <==> path.len() > 0 && path[0] == '/',
{
    lemma_segments_are_between_separators(path);
    lemma_counted_is_filtered(segments(path));
}

proof fn lemma_counted_is_filtered(all: Seq<Seq<char>>)
    requires
        all.len() > 0,
    ensures
        counted(all) == (if all[0].len() > 0 {
            seq![all[0]]
        } else {
            Seq::<Seq<char>>::empty()
        }) + all.skip(1).filter(|s: Seq<char>| s.len() > 0 && s != "."@),
    decreases all.len(),
{
    reveal(Seq::filter);
    reveal_with_fuel(counted, 2);
    let plain = |s: Seq<char>| s.len() > 0 && s != "."@;
    let first = if all[0].len() > 0 {
        seq![all[0]]
    } else {
        Seq::<Seq<char>>::empty()
    };
    if all.len() == 1 {
        assert(all.drop_last() =~= Seq::<Seq<char>>::empty());
        assert(all.skip(1) =~= Seq::<Seq<char>>::empty());
        assert(all.last() == all[0]);
        assert(counted(all) =~= first + all.skip(1).filter(plain));
    } else {
        let front = all.drop_last();
        lemma_counted_is_filtered(front);
        assert(all.skip(1).drop_last() =~= front.skip(1));
        assert(all.skip(1).last() == all.last());
        assert(counted(all) =~= first + all.skip(1).filter(plain));
    }
}

} // verus!
