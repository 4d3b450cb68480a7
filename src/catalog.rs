//! The metadata catalog: contents by hash, named files with their tags,
//! and the tag table, with the commit, lookup and garbage-collection
//! operations over them.

use vstd::prelude::*;

use crate::common::{File, FileDescription, StashError};
use crate::text::{
    contains_str, copy_names, holds_name, is_infix, is_prefix, lemma_sort_names_members, less,
    name_lt, names, same_name, sort_names, sorted_copy, starts_with,
};
use crate::tag::{is_valid_tag, valid_tag};

verus! {

/// What the catalog knows of one stored byte sequence.
pub struct ContentModel {
    pub hash: Seq<char>,
    pub size: u64,
}

/// What the catalog knows of one named file: its content, when it was
/// committed, and its tags in ascending order.
pub struct FileModel {
    pub name: Seq<char>,
    pub hash: Seq<char>,
    pub size: u64,
    pub created: i64,
    pub tags: Seq<Seq<char>>,
}

/// The whole catalog: contents in insertion order, files in ascending
/// order of name, tag names in insertion order.
pub struct CatalogModel {
    pub contents: Seq<ContentModel>,
    pub files: Seq<FileModel>,
    pub tags: Seq<Seq<char>>,
}

/// Inserts `f` into a sequence of files ordered by name.
pub open spec fn insert_file(s: Seq<FileModel>, f: FileModel) -> Seq<FileModel>
    decreases s.len(),
{
    if s.len() == 0 {
        seq![f]
    } else if name_lt(f.name, s[0].name) {
        seq![f] + s
    } else {
        seq![s[0]] + insert_file(s.drop_first(), f)
    }
}

/// The tag table after a commit with the tags `new`: each name not yet in
/// the table is added, in the order given.
pub open spec fn add_tags(table: Seq<Seq<char>>, new: Seq<Seq<char>>) -> Seq<Seq<char>>
    decreases new.len(),
{
    if new.len() == 0 {
        table
    } else {
        let t = add_tags(table, new.drop_last());
        if t.contains(new.last()) {
            t
        } else {
            t.push(new.last())
        }
    }
}

/// Whether the tags of a commit are acceptable: at least one, each valid.
pub open spec fn tags_ok(tags: Seq<Seq<char>>) -> bool {
    &&& tags.len() > 0
    &&& forall|i: int| 0 <= i < tags.len() ==> #[trigger] is_valid_tag(tags[i])
}

/// `t` is the first invalid tag of `tags`.
pub open spec fn first_invalid(tags: Seq<Seq<char>>, t: Seq<char>) -> bool {
    exists|k: int|
        0 <= k < tags.len() && tags[k] == t && !is_valid_tag(t) && forall|j: int|
            0 <= j < k ==> #[trigger] is_valid_tag(tags[j])
}

/// Checks the tags of a commit: none is `NoTags`, an invalid one is
/// `InvalidTag` with the first such name.
pub fn validate_tags(tags: &Vec<String>) -> (r: Result<(), StashError>)
    ensures
        tags@.len() == 0 ==> r == Err::<(), StashError>(StashError::NoTags),
        tags@.len() > 0 && !tags_ok(names(tags@)) ==> (r matches Err(StashError::InvalidTag(t))
            && first_invalid(names(tags@), t@)),
        tags_ok(names(tags@)) ==> r is Ok,
{
    if tags.len() == 0 {
        return Err(StashError::NoTags);
    }
    let mut i: usize = 0;
    while i < tags.len()
        invariant
            i <= tags@.len(),
            forall|j: int| 0 <= j < i ==> #[trigger] is_valid_tag(names(tags@)[j]),
        decreases tags@.len() - i,
    {
        if !valid_tag(tags[i].as_str()) {
            let t = tags[i].clone();
            proof {
                assert(names(tags@)[i as int] == t@);
            }
            return Err(StashError::InvalidTag(t));
        }
        i = i + 1;
    }
    Ok(())
}


struct ContentRow {
    hash: String,
    size: u64,
}

struct FileRow {
    name: String,
    hash: String,
    size: u64,
    created: i64,
    tags: Vec<String>,
}

impl ContentRow {
    closed spec fn model(&self) -> ContentModel {
        ContentModel { hash: self.hash@, size: self.size }
    }
}

impl FileRow {
    closed spec fn model(&self) -> FileModel {
        FileModel {
            name: self.name@,
            hash: self.hash@,
            size: self.size,
            created: self.created,
            tags: names(self.tags@),
        }
    }
}

/// The metadata store: contents, files with their tags, and tag names.
pub struct Catalog {
    contents: Vec<ContentRow>,
    files: Vec<FileRow>,
    tags: Vec<String>,
}

impl View for Catalog {
    type V = CatalogModel;

    closed spec fn view(&self) -> CatalogModel {
        CatalogModel {
            contents: self.contents@.map_values(|c: ContentRow| c.model()),
            files: self.files@.map_values(|f: FileRow| f.model()),
            tags: names(self.tags@),
        }
    }
}

/// The invariant of the catalog: file names strictly ascending (so
/// unique), content hashes and tag names unique, each file's content
/// stored, each file's tags in the tag table, every tag name valid.
pub open spec fn catalog_wf(m: CatalogModel) -> bool {
    &&& forall|i: int, j: int|
        0 <= i < j < m.files.len() ==> name_lt(#[trigger] m.files[i].name, #[trigger] m.files[j].name)
    &&& forall|i: int, j: int|
        0 <= i < j < m.contents.len() ==> #[trigger] m.contents[i].hash != #[trigger] m.contents[j].hash
    &&& forall|i: int, j: int| 0 <= i < j < m.tags.len() ==> #[trigger] m.tags[i] != #[trigger] m.tags[j]
    &&& forall|i: int| 0 <= i < m.tags.len() ==> is_valid_tag(#[trigger] m.tags[i])
    &&& forall|i: int|
        0 <= i < m.files.len() ==> m.contents.contains(
            ContentModel { hash: (#[trigger] m.files[i]).hash, size: m.files[i].size },
        )
    &&& forall|i: int, k: int|
        0 <= i < m.files.len() && 0 <= k < m.files[i].tags.len() ==> m.tags.contains(
            #[trigger] m.files[i].tags[k],
        )
}

/// `i` is the position of the file named `name`.
pub open spec fn named_at(files: Seq<FileModel>, name: Seq<char>, i: int) -> bool {
    0 <= i < files.len() && files[i].name == name
}

/// Some file is named `name`.
pub open spec fn has_file(files: Seq<FileModel>, name: Seq<char>) -> bool {
    exists|i: int| named_at(files, name, i)
}

/// Some content is stored under `hash`.
pub open spec fn has_content(contents: Seq<ContentModel>, hash: Seq<char>) -> bool {
    exists|i: int| 0 <= i < contents.len() && #[trigger] contents[i].hash == hash
}

/// `d` describes the file `f`.
pub open spec fn describes(d: FileDescription, f: FileModel) -> bool {
    &&& d.name@ == f.name
    &&& d.size == f.size
    &&& d.hash@ == f.hash
    &&& d.created == f.created
    &&& names(d.tags@) == f.tags
}

/// `r` shows the file `f`.
pub open spec fn shows(r: File, f: FileModel) -> bool {
    &&& r.name@ == f.name
    &&& r.size == f.size
    &&& r.hash@ == f.hash
    &&& r.created == f.created
}

proof fn lemma_insert_file_at(s: Seq<FileModel>, f: FileModel, p: int)
    requires
        0 <= p <= s.len(),
        forall|j: int| 0 <= j < p ==> !name_lt(f.name, #[trigger] s[j].name),
        p < s.len() ==> name_lt(f.name, s[p].name),
    ensures
        insert_file(s, f) == s.insert(p, f),
    decreases p,
{
    if p == 0 {
        if s.len() == 0 {
            assert(s.insert(0, f) =~= seq![f]);
        } else {
            assert(s.insert(0, f) =~= seq![f] + s);
        }
    } else {
        assert(!name_lt(f.name, s[0].name));
        let t = s.drop_first();
        assert forall|j: int| 0 <= j < p - 1 implies !name_lt(f.name, #[trigger] t[j].name) by {
            assert(t[j] == s[j + 1]);
        }
        lemma_insert_file_at(t, f, p - 1);
        assert(s.insert(p, f) =~= seq![s[0]] + t.insert(p - 1, f));
    }
}

impl Catalog {
    /// The invariant holds.
    pub open spec fn wf(&self) -> bool {
        catalog_wf(self@)
    }

    /// An empty catalog.
    pub fn new() -> (r: Catalog)
        ensures
            r.wf(),
            r@.contents.len() == 0,
            r@.files.len() == 0,
            r@.tags.len() == 0,
    {
        Catalog { contents: Vec::new(), files: Vec::new(), tags: Vec::new() }
    }

    /// Every tag name, in ascending order.
    pub fn all_tags(&self) -> (r: Vec<String>)
        ensures
            names(r@) == sort_names(self@.tags),
    {
        sorted_copy(&self.tags)
    }

    /// The position of the file named `name`, if there is one.
    fn find_file(&self, name: &str) -> (r: Option<usize>)
        ensures
            r matches Some(i) ==> named_at(self@.files, name@, i as int) && forall|j: int|
                0 <= j < i ==> self@.files[j].name != name@,
            r is None ==> !has_file(self@.files, name@),
    {
        let mut i: usize = 0;
        while i < self.files.len()
            invariant
                i <= self.files@.len(),
                forall|j: int| 0 <= j < i ==> self@.files[j].name != name@,
            decreases self.files@.len() - i,
        {
            if crate::text::same_name(self.files[i].name.as_str(), name) {
                return Some(i);
            }
            i = i + 1;
        }
        None
    }
}


/// `f` carries the tag `tag`.
pub open spec fn has_tag(f: FileModel, tag: Seq<char>) -> bool {
    f.tags.contains(tag)
}

/// The query of `list` (`infix` false) or of `search` (`infix` true).
pub open spec fn query(tag: Seq<char>, pattern: Seq<char>, infix: bool) -> spec_fn(FileModel) -> bool {
    |f: FileModel|
        has_tag(f, tag) && if infix {
            is_infix(pattern, f.name)
        } else {
            is_prefix(pattern, f.name)
        }
}

/// The files that `list(tag, prefix)` returns, in catalog order.
pub open spec fn listing(files: Seq<FileModel>, tag: Seq<char>, prefix: Seq<char>) -> Seq<FileModel> {
    files.filter(query(tag, prefix, false))
}

/// The files that `search(tag, term)` returns, in catalog order.
pub open spec fn searching(files: Seq<FileModel>, tag: Seq<char>, term: Seq<char>) -> Seq<FileModel> {
    files.filter(query(tag, term, true))
}

/// The prefix of a listing: none means every name.
pub open spec fn prefix_of(prefix: Option<&str>) -> Seq<char> {
    match prefix {
        Some(p) => p@,
        None => Seq::empty(),
    }
}

impl FileRow {
    fn show(&self) -> (r: File)
        ensures
            shows(r, self.model()),
    {
        File {
            name: self.name.clone(),
            size: self.size,
            hash: self.hash.clone(),
            created: self.created,
        }
    }
}

impl Catalog {
    /// The file named `name`, with its tags in ascending order.
    pub fn describe(&self, name: &str) -> (r: Result<FileDescription, StashError>)
        ensures
            r is Err <==> !has_file(self@.files, name@),
            r is Err ==> r == Err::<FileDescription, StashError>(StashError::NoSuchFile),
            r matches Ok(d) ==> exists|i: int|
                named_at(self@.files, name@, i) && describes(d, #[trigger] self@.files[i]),
    {
        match self.find_file(name) {
            None => Err(StashError::NoSuchFile),
            Some(i) => {
                let f = &self.files[i];
                let d = FileDescription {
                    name: f.name.clone(),
                    size: f.size,
                    hash: f.hash.clone(),
                    created: f.created,
                    tags: copy_names(&f.tags),
                };
                proof {
                    assert(self@.files[i as int] == f.model());
                }
                Ok(d)
            },
        }
    }

    /// Every file with its tags, in ascending order of name.
    pub fn files(&self) -> (r: Vec<FileDescription>)
        ensures
            r@.len() == self@.files.len(),
            forall|i: int| 0 <= i < r@.len() ==> describes(#[trigger] r@[i], self@.files[i]),
    {
        let mut out: Vec<FileDescription> = Vec::new();
        let mut i: usize = 0;
        while i < self.files.len()
            invariant
                i <= self.files@.len(),
                out@.len() == i,
                forall|k: int| 0 <= k < i ==> describes(#[trigger] out@[k], self@.files[k]),
            decreases self.files@.len() - i,
        {
            let f = &self.files[i];
            out.push(
                FileDescription {
                    name: f.name.clone(),
                    size: f.size,
                    hash: f.hash.clone(),
                    created: f.created,
                    tags: copy_names(&f.tags),
                },
            );
            proof {
                assert(self@.files[i as int] == f.model());
            }
            i = i + 1;
        }
        out
    }

    /// The files with tag `tag` whose names match `pattern`, in catalog
    /// order.
    fn matching(&self, tag: &str, pattern: &str, infix: bool) -> (r: Vec<File>)
        ensures
            r@.len() == self@.files.filter(query(tag@, pattern@, infix)).len(),
            forall|k: int|
                0 <= k < r@.len() ==> shows(
                    #[trigger] r@[k],
                    self@.files.filter(query(tag@, pattern@, infix))[k],
                ),
    {
        let ghost pred = query(tag@, pattern@, infix);
        let ghost all = self@.files;
        let mut out: Vec<File> = Vec::new();
        let mut i: usize = 0;
        while i < self.files.len()
            invariant
                i <= self.files@.len(),
                all == self@.files,
                pred == query(tag@, pattern@, infix),
                out@.len() == all.subrange(0, i as int).filter(pred).len(),
                forall|k: int|
                    0 <= k < out@.len() ==> shows(
                        #[trigger] out@[k],
                        all.subrange(0, i as int).filter(pred)[k],
                    ),
            decreases self.files@.len() - i,
        {
            let f = &self.files[i];
            let hit = holds_name(&f.tags, tag) && if infix {
                contains_str(f.name.as_str(), pattern)
            } else {
                starts_with(f.name.as_str(), pattern)
            };
            proof {
                reveal(Seq::filter);
                let sub = all.subrange(0, i + 1);
                assert(sub.drop_last() =~= all.subrange(0, i as int));
                assert(sub.last() == f.model());
                assert(hit == pred(f.model()));
            }
            if hit {
                out.push(f.show());
            }
            i = i + 1;
        }
        proof {
            assert(all.subrange(0, all.len() as int) =~= all);
        }
        out
    }

    /// The files with tag `tag` whose names start with `prefix` (every
    /// file with the tag when there is none), by name ascending.
    pub fn list(&self, tag: &str, prefix: Option<&str>) -> (r: Result<Vec<File>, StashError>)
        ensures
            r is Err <==> !is_valid_tag(tag@),
            r matches Err(e) ==> e matches StashError::InvalidTag(t) && t@ == tag@,
            r matches Ok(v) ==> v@.len() == listing(self@.files, tag@, prefix_of(prefix)).len()
                && forall|k: int|
                0 <= k < v@.len() ==> shows(
                    #[trigger] v@[k],
                    listing(self@.files, tag@, prefix_of(prefix))[k],
                ),
    {
        if !valid_tag(tag) {
            return Err(StashError::InvalidTag(String::from_str(tag)));
        }
        let v = match prefix {
            Some(p) => self.matching(tag, p, false),
            None => {
                proof {
                    reveal_strlit("");
                    assert(""@ =~= prefix_of(prefix));
                }
                self.matching(tag, "", false)
            },
        };
        Ok(v)
    }

    /// The files with tag `tag` whose names contain `term`, by name
    /// ascending.
    pub fn search(&self, tag: &str, term: &str) -> (r: Result<Vec<File>, StashError>)
        ensures
            r is Err <==> !is_valid_tag(tag@),
            r matches Err(e) ==> e matches StashError::InvalidTag(t) && t@ == tag@,
            r matches Ok(v) ==> v@.len() == searching(self@.files, tag@, term@).len()
                && forall|k: int|
                0 <= k < v@.len() ==> shows(
                    #[trigger] v@[k],
                    searching(self@.files, tag@, term@)[k],
                ),
    {
        if !valid_tag(tag) {
            return Err(StashError::InvalidTag(String::from_str(tag)));
        }
        Ok(self.matching(tag, term, true))
    }

    /// Removes the file named `name`; its content stays stored.
    pub fn delete(&mut self, name: &str) -> (r: Result<(), StashError>)
        requires
            old(self).wf(),
        ensures
            final(self).wf(),
            r is Err <==> !has_file(old(self)@.files, name@),
            r is Err ==> r == Err::<(), StashError>(StashError::NoSuchFile) && final(self)@ == old(
                self,
            )@,
            r is Ok ==> final(self)@ == after_delete(old(self)@, name@),
            final(self)@.contents == old(self)@.contents,
            final(self)@.tags == old(self)@.tags,
    {
        match self.find_file(name) {
            None => Err(StashError::NoSuchFile),
            Some(i) => {
                let ghost m = self@;
                self.files.remove(i);
                proof {
                    assert(self@.files =~= m.files.remove(i as int));
                    assert(self@.contents =~= m.contents);
                    assert(self@.tags =~= m.tags);
                    assert forall|j: int| 0 <= j < m.files.len() && j != i implies (
                    #[trigger] m.files[j]).name != name@ by {
                        lemma_names_unique(m, i as int, j);
                    }
                    lemma_without_at(m.files, name@, i as int);
                    let fs = self@.files;
                    assert forall|a: int, b: int| 0 <= a < b < fs.len() implies name_lt(
                        #[trigger] fs[a].name,
                        #[trigger] fs[b].name,
                    ) by {
                        let a2 = if a < i { a } else { a + 1 };
                        let b2 = if b < i { b } else { b + 1 };
                        assert(fs[a] == m.files[a2]);
                        assert(fs[b] == m.files[b2]);
                    }
                    assert forall|a: int| 0 <= a < fs.len() implies self@.contents.contains(
                        ContentModel { hash: (#[trigger] fs[a]).hash, size: fs[a].size },
                    ) by {
                        let a2 = if a < i { a } else { a + 1 };
                        assert(fs[a] == m.files[a2]);
                    }
                    assert forall|a: int, k: int|
                        0 <= a < fs.len() && 0 <= k < fs[a].tags.len() implies self@.tags.contains(
                        #[trigger] fs[a].tags[k],
                    ) by {
                        let a2 = if a < i { a } else { a + 1 };
                        assert(fs[a] == m.files[a2]);
                    }
                }
                Ok(())
            },
        }
    }
}


/// The size stored for `hash`, or `size` where no content has that hash.
pub open spec fn stored_size(contents: Seq<ContentModel>, hash: Seq<char>, size: u64) -> u64
    decreases contents.len(),
{
    if contents.len() == 0 {
        size
    } else if contents[0].hash == hash {
        contents[0].size
    } else {
        stored_size(contents.drop_first(), hash, size)
    }
}

/// The file that a commit of `size` bytes hashing to `hash` adds under
/// `name`, tagged `tags`, at time `now`.
pub open spec fn committed_file(
    contents: Seq<ContentModel>,
    name: Seq<char>,
    hash: Seq<char>,
    size: u64,
    tags: Seq<Seq<char>>,
    now: i64,
) -> FileModel {
    FileModel {
        name,
        hash,
        size: stored_size(contents, hash, size),
        created: now,
        tags: sort_names(tags),
    }
}

/// The outcome of a commit: the file as the client sees it, and whether
/// its content is new, so that the staging blob is to be moved into place
/// (`true`) or discarded (`false`).
pub struct Committed {
    pub file: File,
    pub stored: bool,
}

proof fn lemma_stored_size_at(c: Seq<ContentModel>, h: Seq<char>, sz: u64, k: int)
    requires
        0 <= k < c.len(),
        c[k].hash == h,
        forall|j: int| 0 <= j < k ==> (#[trigger] c[j]).hash != h,
    ensures
        stored_size(c, h, sz) == c[k].size,
    decreases k,
{
    if k > 0 {
        let d = c.drop_first();
        assert forall|j: int| 0 <= j < k - 1 implies (#[trigger] d[j]).hash != h by {
            assert(d[j] == c[j + 1]);
        }
        lemma_stored_size_at(d, h, sz, k - 1);
    }
}

proof fn lemma_stored_size_absent(c: Seq<ContentModel>, h: Seq<char>, sz: u64)
    requires
        forall|j: int| 0 <= j < c.len() ==> (#[trigger] c[j]).hash != h,
    ensures
        stored_size(c, h, sz) == sz,
    decreases c.len(),
{
    if c.len() > 0 {
        let d = c.drop_first();
        assert forall|j: int| 0 <= j < d.len() implies (#[trigger] d[j]).hash != h by {
            assert(d[j] == c[j + 1]);
        }
        lemma_stored_size_absent(d, h, sz);
    }
}

impl Catalog {
    /// The position of the content stored under `hash`, if there is one.
    fn find_content(&self, hash: &str) -> (r: Option<usize>)
        ensures
            r matches Some(k) ==> k < self@.contents.len() && self@.contents[k as int].hash == hash@
                && forall|j: int| 0 <= j < k ==> (#[trigger] self@.contents[j]).hash != hash@,
            r is None ==> forall|j: int|
                0 <= j < self@.contents.len() ==> (#[trigger] self@.contents[j]).hash != hash@,
    {
        let mut i: usize = 0;
        while i < self.contents.len()
            invariant
                i <= self.contents@.len(),
                forall|j: int| 0 <= j < i ==> (#[trigger] self@.contents[j]).hash != hash@,
            decreases self.contents@.len() - i,
        {
            if crate::text::same_name(self.contents[i].hash.as_str(), hash) {
                return Some(i);
            }
            i = i + 1;
        }
        None
    }

    /// Adds to the tag table each of `tags` that it lacks.
    fn add_tag_names(&mut self, tags: &Vec<String>)
        requires
            tags_ok(names(tags@)),
            forall|i: int, j: int|
                0 <= i < j < old(self)@.tags.len() ==> #[trigger] old(self)@.tags[i]
                    != #[trigger] old(self)@.tags[j],
            forall|i: int| 0 <= i < old(self)@.tags.len() ==> is_valid_tag(#[trigger] old(self)@.tags[i]),
        ensures
            final(self)@.tags == add_tags(old(self)@.tags, names(tags@)),
            final(self)@.files == old(self)@.files,
            final(self)@.contents == old(self)@.contents,
            forall|i: int, j: int|
                0 <= i < j < final(self)@.tags.len() ==> #[trigger] final(self)@.tags[i]
                    != #[trigger] final(self)@.tags[j],
            forall|i: int| 0 <= i < final(self)@.tags.len() ==> is_valid_tag(#[trigger] final(self)@.tags[i]),
            forall|y: Seq<char>| #[trigger] old(self)@.tags.contains(y) ==> final(self)@.tags.contains(y),
            forall|y: Seq<char>| #[trigger] names(tags@).contains(y) ==> final(self)@.tags.contains(y),
    {
        let ghost m0 = self@;
        let ghost given = names(tags@);
        let mut i: usize = 0;
        while i < tags.len()
            invariant
                i <= tags@.len(),
                given == names(tags@),
                tags_ok(given),
                self@.tags == add_tags(m0.tags, given.subrange(0, i as int)),
                self@.files == m0.files,
                self@.contents == m0.contents,
                forall|a: int, b: int|
                    0 <= a < b < self@.tags.len() ==> #[trigger] self@.tags[a] != #[trigger] self@.tags[b],
                forall|a: int| 0 <= a < self@.tags.len() ==> is_valid_tag(#[trigger] self@.tags[a]),
                forall|y: Seq<char>| #[trigger] m0.tags.contains(y) ==> self@.tags.contains(y),
                forall|j: int| 0 <= j < i ==> self@.tags.contains(#[trigger] given[j]),
            decreases tags@.len() - i,
        {
            let present = holds_name(&self.tags, tags[i].as_str());
            let ghost t0 = self@.tags;
            proof {
                let sub = given.subrange(0, i + 1);
                assert(sub.drop_last() =~= given.subrange(0, i as int));
                assert(sub.last() == given[i as int]);
                assert(is_valid_tag(given[i as int]));
            }
            if !present {
                let c = tags[i].clone();
                self.tags.push(c);
                proof {
                    assert(self@.tags =~= t0.push(given[i as int]));
                    assert(self@.files =~= m0.files);
                    assert(self@.contents =~= m0.contents);
                    assert(self@.tags[t0.len() as int] == given[i as int]);
                    assert forall|y: Seq<char>| #[trigger] m0.tags.contains(y) implies self@.tags.contains(y) by {
                        assert(t0.contains(y));
                        let k = choose|k: int| 0 <= k < t0.len() && t0[k] == y;
                        assert(self@.tags[k] == y);
                    }
                    assert forall|j: int| 0 <= j < i + 1 implies self@.tags.contains(#[trigger] given[j]) by {
                        if j < i {
                            assert(t0.contains(given[j]));
                            let k = choose|k: int| 0 <= k < t0.len() && t0[k] == given[j];
                            assert(self@.tags[k] == given[j]);
                        }
                    }
                }
            }
            i = i + 1;
        }
        proof {
            assert(given.subrange(0, tags@.len() as int) =~= given);
            assert forall|y: Seq<char>| #[trigger] given.contains(y) implies self@.tags.contains(y) by {
                let k = choose|k: int| 0 <= k < given.len() && given[k] == y;
                assert(self@.tags.contains(given[k]));
            }
        }
    }

    /// Puts `row` in its place by name.
    fn insert_row(&mut self, row: FileRow)
        requires
            forall|i: int, j: int|
                0 <= i < j < old(self)@.files.len() ==> name_lt(
                    #[trigger] old(self)@.files[i].name,
                    #[trigger] old(self)@.files[j].name,
                ),
            !has_file(old(self)@.files, row.name@),
        ensures
            final(self)@.files == insert_file(old(self)@.files, row.model()),
            final(self)@.contents == old(self)@.contents,
            final(self)@.tags == old(self)@.tags,
            forall|i: int, j: int|
                0 <= i < j < final(self)@.files.len() ==> name_lt(
                    #[trigger] final(self)@.files[i].name,
                    #[trigger] final(self)@.files[j].name,
                ),
            forall|a: int|
                0 <= a < final(self)@.files.len() ==> #[trigger] final(self)@.files[a] == row.model()
                    || old(self)@.files.contains(final(self)@.files[a]),
    {
        let ghost m0 = self@;
        let ghost f = row.model();
        assert(f.name == row.name@);
        let mut p: usize = 0;
        while p < self.files.len()
            invariant
                p <= self.files@.len(),
                self@ == m0,
                f.name == row.name@,
                forall|j: int| 0 <= j < p ==> !name_lt(f.name, #[trigger] m0.files[j].name),
            ensures
                p <= self.files@.len(),
                forall|j: int| 0 <= j < p ==> !name_lt(f.name, #[trigger] m0.files[j].name),
                p < self.files@.len() ==> name_lt(f.name, m0.files[p as int].name),
            decreases self.files@.len() - p,
        {
            proof {
                assert(m0.files[p as int] == self.files@[p as int].model());
            }
            if less(row.name.as_str(), self.files[p].name.as_str()) {
                break;
            }
            p = p + 1;
        }
        proof {
            lemma_insert_file_at(m0.files, f, p as int);
        }
        self.files.insert(p, row);
        proof {
            let fs = self@.files;
            assert(fs =~= m0.files.insert(p as int, f));
            assert(self@.contents =~= m0.contents);
            assert(self@.tags =~= m0.tags);
            assert forall|j: int| 0 <= j < p implies name_lt(#[trigger] m0.files[j].name, f.name) by {
                crate::text::lemma_lt_total(m0.files[j].name, f.name);
                assert(!named_at(m0.files, f.name, j));
            }
            assert forall|a: int, b: int| 0 <= a < b < fs.len() implies name_lt(
                #[trigger] fs[a].name,
                #[trigger] fs[b].name,
            ) by {
                if b < p {
                } else if b == p {
                    assert(fs[a] == m0.files[a]);
                } else if a < p {
                    assert(fs[b] == m0.files[b - 1]);
                    crate::text::lemma_lt_transitive(fs[a].name, f.name, m0.files[p as int].name);
                    if b - 1 > p {
                        crate::text::lemma_lt_transitive(
                            fs[a].name,
                            m0.files[p as int].name,
                            m0.files[b - 1].name,
                        );
                    }
                } else if a == p {
                    assert(fs[b] == m0.files[b - 1]);
                    if b - 1 > p {
                        crate::text::lemma_lt_transitive(
                            f.name,
                            m0.files[p as int].name,
                            m0.files[b - 1].name,
                        );
                    }
                } else {
                    assert(fs[a] == m0.files[a - 1]);
                    assert(fs[b] == m0.files[b - 1]);
                }
            }
            assert forall|a: int| 0 <= a < fs.len() implies #[trigger] fs[a] == f || m0.files.contains(fs[a]) by {
                if a < p {
                    assert(fs[a] == m0.files[a]);
                } else if a > p {
                    assert(fs[a] == m0.files[a - 1]);
                }
            }
        }
    }
}


impl Catalog {
    /// What a commit of content hashing to `hash` as `file_name` with tags
    /// `tags` would do, without doing it: the same error as `commit`, or
    /// whether the content would be stored as new.  This lets the caller
    /// move the staging blob into place before the catalog records it.
    pub fn check_commit(&self, file_name: &str, hash: &str, tags: &Vec<String>, replace: bool) -> (r:
        Result<bool, StashError>)
        ensures
            tags@.len() == 0 ==> r == Err::<bool, StashError>(StashError::NoTags),
            tags@.len() > 0 && !tags_ok(names(tags@)) ==> (r matches Err(StashError::InvalidTag(t))
                && first_invalid(names(tags@), t@)),
            tags_ok(names(tags@)) && has_file(self@.files, file_name@) && !replace ==> r
                == Err::<bool, StashError>(StashError::FileAlreadyExists),
            tags_ok(names(tags@)) && (replace || !has_file(self@.files, file_name@)) ==> r == Ok::<
                bool,
                StashError,
            >(!has_content(self@.contents, hash@)),
    {
        match validate_tags(tags) {
            Err(e) => {
                return Err(e);
            },
            Ok(()) => {},
        }
        if !replace && self.find_file(file_name).is_some() {
            return Err(StashError::FileAlreadyExists);
        }
        let found = self.find_content(hash);
        proof {
            if found is Some {
                let k = found->Some_0 as int;
                assert(self@.contents[k].hash == hash@);
            }
        }
        Ok(found.is_none())
    }

    /// Records a commit of `size` bytes hashing to `hash` as the file
    /// `file_name` with tags `tags`, at time `now`.
    ///
    /// Fails with `NoTags` or `InvalidTag` on bad tags, then with
    /// `FileAlreadyExists` when the name is taken and `replace` is false;
    /// a failed commit changes nothing.  On success a file of that name is
    /// replaced, the content is added unless its hash is already stored,
    /// and the tags that are new are added to the tag table.
    pub fn commit(
        &mut self,
        file_name: &str,
        size: u64,
        hash: &str,
        tags: &Vec<String>,
        replace: bool,
        now: i64,
    ) -> (r: Result<Committed, StashError>)
        requires
            old(self).wf(),
        ensures
            final(self).wf(),
            tags@.len() == 0 ==> r == Err::<Committed, StashError>(StashError::NoTags),
            tags@.len() > 0 && !tags_ok(names(tags@)) ==> (r matches Err(StashError::InvalidTag(t))
                && first_invalid(names(tags@), t@)),
            tags_ok(names(tags@)) && has_file(old(self)@.files, file_name@) && !replace ==> r
                == Err::<Committed, StashError>(StashError::FileAlreadyExists),
            tags_ok(names(tags@)) && (replace || !has_file(old(self)@.files, file_name@)) ==> r is Ok,
            r is Err ==> final(self)@ == old(self)@,
            r matches Ok(c) ==> {
                &&& c.file.name@ == file_name@
                &&& c.file.size == size
                &&& c.file.hash@ == hash@
                &&& c.file.created == now
                &&& c.stored == !has_content(old(self)@.contents, hash@)
                &&& final(self)@ == after_commit(
                    old(self)@,
                    file_name@,
                    hash@,
                    size,
                    names(tags@),
                    now,
                )
            },
    {
        match validate_tags(tags) {
            Err(e) => {
                return Err(e);
            },
            Ok(()) => {},
        }
        let existing = self.find_file(file_name);
        if existing.is_some() && !replace {
            return Err(StashError::FileAlreadyExists);
        }
        let ghost m0 = self@;
        let ghost newf = committed_file(m0.contents, file_name@, hash@, size, names(tags@), now);
        match existing {
            Some(i) => {
                self.files.remove(i);
                proof {
                    let fs = self@.files;
                    assert(fs =~= m0.files.remove(i as int));
                    assert(self@.contents =~= m0.contents);
                    assert(self@.tags =~= m0.tags);
                    assert forall|a: int, b: int| 0 <= a < b < fs.len() implies name_lt(
                        #[trigger] fs[a].name,
                        #[trigger] fs[b].name,
                    ) by {
                        let a2 = if a < i { a } else { a + 1 };
                        let b2 = if b < i { b } else { b + 1 };
                        assert(fs[a] == m0.files[a2]);
                        assert(fs[b] == m0.files[b2]);
                    }
                    assert forall|a: int| 0 <= a < fs.len() implies m0.files.contains(#[trigger] fs[a]) by {
                        let a2 = if a < i { a } else { a + 1 };
                        assert(fs[a] == m0.files[a2]);
                    }
                    assert forall|j: int| 0 <= j < m0.files.len() && j != i implies (
                    #[trigger] m0.files[j]).name != file_name@ by {
                        lemma_names_unique(m0, i as int, j);
                    }
                    lemma_without_at(m0.files, file_name@, i as int);
                    assert(!has_file(fs, file_name@)) by {
                        if has_file(fs, file_name@) {
                            let a = choose|a: int| named_at(fs, file_name@, a);
                            if a < i {
                                assert(fs[a] == m0.files[a]);
                            } else {
                                assert(fs[a] == m0.files[a + 1]);
                                crate::text::lemma_lt_irreflexive(file_name@);
                            }
                        }
                    }
                }
            },
            None => {
                proof {
                    lemma_without_absent(m0.files, file_name@);
                }
            },
        }
        let ghost m1 = self@;
        proof {
            assert(m1.files == without_file(m0.files, file_name@));
        }
        let found = self.find_content(hash);
        let stored = found.is_none();
        let fsize = match found {
            Some(k) => {
                proof {
                    lemma_stored_size_at(m0.contents, hash@, size, k as int);
                    assert(m0.contents[k as int] == self.contents@[k as int].model());
                }
                self.contents[k].size
            },
            None => {
                proof {
                    lemma_stored_size_absent(m0.contents, hash@, size);
                }
                size
            },
        };
        if stored {
            self.contents.push(ContentRow { hash: String::from_str(hash), size });
            proof {
                assert(self@.contents =~= m0.contents.push(ContentModel { hash: hash@, size }));
                assert(self@.files =~= m1.files);
                assert(self@.tags =~= m1.tags);
            }
        }
        let ghost m2 = self@;
        self.add_tag_names(tags);
        let ftags = sorted_copy(tags);
        let row = FileRow {
            name: String::from_str(file_name),
            hash: String::from_str(hash),
            size: fsize,
            created: now,
            tags: ftags,
        };
        proof {
            assert(row.model() == newf);
        }
        let ghost m3 = self@;
        self.insert_row(row);
        proof {
            let m = self@;
            crate::text::lemma_lt_irreflexive(file_name@);
            lemma_sort_names_members(names(tags@));
            assert forall|y: ContentModel| #[trigger] m0.contents.contains(y) implies m.contents.contains(y) by {
                let k = choose|k: int| 0 <= k < m0.contents.len() && m0.contents[k] == y;
                assert(m.contents[k] == y);
            }
            assert(m.contents.contains(ContentModel { hash: hash@, size: fsize })) by {
                match found {
                    Some(k) => {
                        assert(m.contents[k as int] == m0.contents[k as int]);
                    },
                    None => {
                        assert(m.contents[m0.contents.len() as int] == ContentModel { hash: hash@, size });
                    },
                }
            }
            assert forall|a: int| 0 <= a < m.files.len() implies m.contents.contains(
                ContentModel { hash: (#[trigger] m.files[a]).hash, size: m.files[a].size },
            ) by {
                if m.files[a] != newf {
                    assert(m1.files.contains(m.files[a]));
                    let b = choose|b: int| 0 <= b < m1.files.len() && m1.files[b] == m.files[a];
                    assert(m0.files.contains(m1.files[b]));
                    let c = choose|c: int| 0 <= c < m0.files.len() && m0.files[c] == m1.files[b];
                    assert(m0.contents.contains(ContentModel { hash: m0.files[c].hash, size: m0.files[c].size }));
                }
            }
            assert forall|a: int, k: int|
                0 <= a < m.files.len() && 0 <= k < m.files[a].tags.len() implies m.tags.contains(
                #[trigger] m.files[a].tags[k],
            ) by {
                if m.files[a] != newf {
                    assert(m1.files.contains(m.files[a]));
                    let b = choose|b: int| 0 <= b < m1.files.len() && m1.files[b] == m.files[a];
                    assert(m0.files.contains(m1.files[b]));
                    let c = choose|c: int| 0 <= c < m0.files.len() && m0.files[c] == m1.files[b];
                    assert(m0.files[c].tags[k] == m.files[a].tags[k]);
                    assert(m0.tags.contains(m0.files[c].tags[k]));
                    assert(m2.tags.contains(m0.files[c].tags[k]));
                } else {
                    assert(sort_names(names(tags@)).contains(newf.tags[k]));
                    assert(names(tags@).contains(newf.tags[k]));
                }
            }
            assert forall|i: int, j: int|
                0 <= i < j < m.contents.len() implies #[trigger] m.contents[i].hash
                != #[trigger] m.contents[j].hash by {
                if stored && j == m0.contents.len() {
                    assert(m.contents[i] == m0.contents[i]);
                }
            }
            if stored {
                assert(!has_content(m0.contents, hash@));
            } else {
                assert(has_content(m0.contents, hash@));
            }
            assert(m.contents == stored_contents(m0.contents, hash@, size));
            assert(m == after_commit(m0, file_name@, hash@, size, names(tags@), now));
        }
        Ok(Committed {
            file: File {
                name: String::from_str(file_name),
                size,
                hash: String::from_str(hash),
                created: now,
            },
            stored,
        })
    }
}


/// Some file refers to the content `hash`.
pub open spec fn referenced(files: Seq<FileModel>, hash: Seq<char>) -> bool {
    exists|i: int| 0 <= i < files.len() && #[trigger] files[i].hash == hash
}

/// The contents that some file refers to.
pub open spec fn in_use(files: Seq<FileModel>) -> spec_fn(ContentModel) -> bool {
    |c: ContentModel| referenced(files, c.hash)
}

/// The contents that no file refers to.
pub open spec fn unused(files: Seq<FileModel>) -> spec_fn(ContentModel) -> bool {
    |c: ContentModel| !referenced(files, c.hash)
}

/// The hashes of a sequence of contents.
pub open spec fn hashes(c: Seq<ContentModel>) -> Seq<Seq<char>> {
    c.map_values(|x: ContentModel| x.hash)
}

impl Catalog {
    /// Whether some file refers to the content `hash`.
    fn is_referenced(&self, hash: &str) -> (r: bool)
        ensures
            r == referenced(self@.files, hash@),
    {
        let mut i: usize = 0;
        while i < self.files.len()
            invariant
                i <= self.files@.len(),
                forall|j: int| 0 <= j < i ==> (#[trigger] self@.files[j]).hash != hash@,
            decreases self.files@.len() - i,
        {
            if same_hash(self.files[i].hash.as_str(), hash) {
                proof {
                    assert(self@.files[i as int].hash == hash@);
                }
                return true;
            }
            i = i + 1;
        }
        false
    }

    /// Drops every content that no file refers to and returns the hashes
    /// dropped, whose stored bytes may then be unlinked.
    pub fn collect_garbage(&mut self) -> (r: Vec<String>)
        requires
            old(self).wf(),
        ensures
            final(self).wf(),
            final(self)@ == after_gc(old(self)@),
            names(r@) == hashes(old(self)@.contents.filter(unused(old(self)@.files))),
    {
        let ghost m0 = self@;
        let ghost all = m0.contents;
        let ghost keep = in_use(m0.files);
        let ghost drop = unused(m0.files);
        let mut kept: Vec<ContentRow> = Vec::new();
        let mut dropped: Vec<String> = Vec::new();
        let mut i: usize = 0;
        while i < self.contents.len()
            invariant
                i <= self.contents@.len(),
                self@ == m0,
                all == m0.contents,
                keep == in_use(m0.files),
                drop == unused(m0.files),
                kept@.map_values(|c: ContentRow| c.model()) == all.subrange(0, i as int).filter(keep),
                names(dropped@) == hashes(all.subrange(0, i as int).filter(drop)),
            decreases self.contents@.len() - i,
        {
            let used = self.is_referenced(self.contents[i].hash.as_str());
            let ghost pk = kept@;
            let ghost pd = dropped@;
            let ghost ci = all[i as int];
            proof {
                reveal(Seq::filter);
                let sub = all.subrange(0, i + 1);
                assert(sub.drop_last() =~= all.subrange(0, i as int));
                assert(sub.last() == ci);
                assert(ci == self.contents@[i as int].model());
            }
            if used {
                kept.push(
                    ContentRow { hash: self.contents[i].hash.clone(), size: self.contents[i].size },
                );
                proof {
                    assert(kept@.map_values(|c: ContentRow| c.model()) =~= pk.map_values(
                        |c: ContentRow| c.model(),
                    ).push(ci));
                }
            } else {
                dropped.push(self.contents[i].hash.clone());
                proof {
                    assert(names(dropped@) =~= names(pd).push(ci.hash));
                    assert(hashes(all.subrange(0, i + 1).filter(drop)) =~= hashes(
                        all.subrange(0, i as int).filter(drop),
                    ).push(ci.hash));
                }
            }
            i = i + 1;
        }
        proof {
            assert(all.subrange(0, all.len() as int) =~= all);
        }
        self.contents = kept;
        proof {
            let m = self@;
            assert(m.files == m0.files);
            assert(m.tags == m0.tags);
            assert(m.contents == all.filter(keep));
            all.filter_lemma(keep);
            assert forall|a: int, b: int| 0 <= a < b < m.contents.len() implies #[trigger] m.contents[a].hash
                != #[trigger] m.contents[b].hash by {
                lemma_filter_distinct_hashes(all, keep, a, b);
            }
            assert forall|a: int| 0 <= a < m.files.len() implies m.contents.contains(
                ContentModel { hash: (#[trigger] m.files[a]).hash, size: m.files[a].size },
            ) by {
                let c = ContentModel { hash: m.files[a].hash, size: m.files[a].size };
                assert(all.contains(c));
                assert(keep(c));
                lemma_filter_keeps(all, keep, c);
            }
        }
        dropped
    }
}

/// Tests two hashes for equality.
fn same_hash(a: &str, b: &str) -> (r: bool)
    ensures
        r == (a@ == b@),
{
    same_name(a, b)
}

/// Whatever a filter returns comes from the filtered sequence.
pub proof fn lemma_filter_from<A>(s: Seq<A>, p: spec_fn(A) -> bool)
    ensures
        forall|i: int| 0 <= i < s.filter(p).len() ==> s.contains(#[trigger] s.filter(p)[i]),
    decreases s.len(),
{
    reveal(Seq::filter);
    if s.len() > 0 {
        let d = s.drop_last();
        lemma_filter_from(d, p);
        let f = s.filter(p);
        assert forall|i: int| 0 <= i < f.len() implies s.contains(#[trigger] f[i]) by {
            if p(s.last()) && i == f.len() - 1 {
                assert(s[s.len() - 1] == f[i]);
            } else {
                assert(f[i] == d.filter(p)[i]);
                let k = choose|k: int| 0 <= k < d.len() && d[k] == f[i];
                assert(s[k] == f[i]);
            }
        }
    }
}

proof fn lemma_filter_keeps(s: Seq<ContentModel>, p: spec_fn(ContentModel) -> bool, c: ContentModel)
    requires
        s.contains(c),
        p(c),
    ensures
        s.filter(p).contains(c),
    decreases s.len(),
{
    reveal(Seq::filter);
    if s.last() == c {
        assert(s.filter(p)[s.filter(p).len() - 1] == c);
    } else {
        let k = choose|k: int| 0 <= k < s.len() && s[k] == c;
        assert(s.drop_last()[k] == c);
        lemma_filter_keeps(s.drop_last(), p, c);
        let f = s.drop_last().filter(p);
        let j = choose|j: int| 0 <= j < f.len() && f[j] == c;
        if p(s.last()) {
            assert(s.filter(p)[j] == c);
        }
    }
}

proof fn lemma_filter_distinct_hashes(s: Seq<ContentModel>, p: spec_fn(ContentModel) -> bool, a: int, b: int)
    requires
        forall|i: int, j: int| 0 <= i < j < s.len() ==> #[trigger] s[i].hash != #[trigger] s[j].hash,
        0 <= a < b < s.filter(p).len(),
    ensures
        s.filter(p)[a].hash != s.filter(p)[b].hash,
    decreases s.len(),
{
    reveal(Seq::filter);
    let d = s.drop_last();
    assert forall|i: int, j: int| 0 <= i < j < d.len() implies #[trigger] d[i].hash != #[trigger] d[j].hash by {
        assert(d[i] == s[i] && d[j] == s[j]);
    }
    let f = d.filter(p);
    if p(s.last()) && b == f.len() {
        lemma_filter_from(d, p);
        assert(d.contains(f[a]));
        let k = choose|k: int| 0 <= k < d.len() && d[k] == f[a];
        assert(s[k] == f[a]);
        assert(s[s.len() - 1] == s.last());
    } else {
        lemma_filter_distinct_hashes(d, p, a, b);
    }
}


/// Files not named `name`.
pub open spec fn not_named(name: Seq<char>) -> spec_fn(FileModel) -> bool {
    |f: FileModel| f.name != name
}

/// The files without the one named `name`.
pub open spec fn without_file(files: Seq<FileModel>, name: Seq<char>) -> Seq<FileModel> {
    files.filter(not_named(name))
}

/// The contents after storing `size` bytes hashing to `hash`: unchanged
/// when that hash is already stored.
pub open spec fn stored_contents(c: Seq<ContentModel>, hash: Seq<char>, size: u64) -> Seq<ContentModel> {
    if has_content(c, hash) {
        c
    } else {
        c.push(ContentModel { hash, size })
    }
}

/// The catalog after a successful commit.
pub open spec fn after_commit(
    m: CatalogModel,
    name: Seq<char>,
    hash: Seq<char>,
    size: u64,
    tags: Seq<Seq<char>>,
    now: i64,
) -> CatalogModel {
    CatalogModel {
        contents: stored_contents(m.contents, hash, size),
        files: insert_file(
            without_file(m.files, name),
            committed_file(m.contents, name, hash, size, tags, now),
        ),
        tags: add_tags(m.tags, tags),
    }
}

/// The catalog after deleting the file named `name`.
pub open spec fn after_delete(m: CatalogModel, name: Seq<char>) -> CatalogModel {
    CatalogModel { contents: m.contents, files: without_file(m.files, name), tags: m.tags }
}

/// The catalog after dropping unused contents.
pub open spec fn after_gc(m: CatalogModel) -> CatalogModel {
    CatalogModel { contents: m.contents.filter(in_use(m.files)), files: m.files, tags: m.tags }
}

proof fn lemma_without_absent(s: Seq<FileModel>, name: Seq<char>)
    requires
        !has_file(s, name),
    ensures
        without_file(s, name) == s,
    decreases s.len(),
{
    reveal(Seq::filter);
    if s.len() > 0 {
        let d = s.drop_last();
        assert(!has_file(d, name)) by {
            if has_file(d, name) {
                let k = choose|k: int| named_at(d, name, k);
                assert(named_at(s, name, k));
            }
        }
        lemma_without_absent(d, name);
        assert(!named_at(s, name, s.len() - 1));
        assert(d.push(s.last()) =~= s);
    }
}

proof fn lemma_without_at(s: Seq<FileModel>, name: Seq<char>, i: int)
    requires
        named_at(s, name, i),
        forall|j: int| 0 <= j < s.len() && j != i ==> (#[trigger] s[j]).name != name,
    ensures
        without_file(s, name) == s.remove(i),
    decreases s.len(),
{
    reveal(Seq::filter);
    let d = s.drop_last();
    if i == s.len() - 1 {
        assert(!has_file(d, name)) by {
            if has_file(d, name) {
                let k = choose|k: int| named_at(d, name, k);
                assert(s[k] == d[k]);
            }
        }
        lemma_without_absent(d, name);
        assert(s.remove(i) =~= d);
    } else {
        assert forall|j: int| 0 <= j < d.len() && j != i implies (#[trigger] d[j]).name != name by {
            assert(d[j] == s[j]);
        }
        lemma_without_at(d, name, i);
        assert(s[s.len() - 1].name != name);
        assert(s.remove(i) =~= d.remove(i).push(s.last()));
    }
}

/// In a well-formed catalog no two files share a name.
pub proof fn lemma_names_unique(m: CatalogModel, i: int, j: int)
    requires
        catalog_wf(m),
        0 <= i < m.files.len(),
        0 <= j < m.files.len(),
        i != j,
    ensures
        m.files[i].name != m.files[j].name,
{
    if i < j {
        assert(name_lt(m.files[i].name, m.files[j].name));
    } else {
        assert(name_lt(m.files[j].name, m.files[i].name));
    }
    crate::text::lemma_lt_irreflexive(m.files[i].name);
}


proof fn lemma_filter_ascending(s: Seq<FileModel>, p: spec_fn(FileModel) -> bool)
    requires
        forall|i: int, j: int| 0 <= i < j < s.len() ==> name_lt(#[trigger] s[i].name, #[trigger] s[j].name),
    ensures
        forall|i: int, j: int|
            0 <= i < j < s.filter(p).len() ==> name_lt(
                #[trigger] s.filter(p)[i].name,
                #[trigger] s.filter(p)[j].name,
            ),
    decreases s.len(),
{
    reveal(Seq::filter);
    if s.len() > 0 {
        let d = s.drop_last();
        assert forall|i: int, j: int| 0 <= i < j < d.len() implies name_lt(
            #[trigger] d[i].name,
            #[trigger] d[j].name,
        ) by {
            assert(d[i] == s[i] && d[j] == s[j]);
        }
        lemma_filter_ascending(d, p);
        lemma_filter_from(d, p);
        let f = s.filter(p);
        let g = d.filter(p);
        assert forall|i: int, j: int| 0 <= i < j < f.len() implies name_lt(
            #[trigger] f[i].name,
            #[trigger] f[j].name,
        ) by {
            if p(s.last()) && j == f.len() - 1 {
                assert(f[i] == g[i]);
                assert(d.contains(g[i]));
                let k = choose|k: int| 0 <= k < d.len() && d[k] == g[i];
                assert(s[k] == g[i]);
                assert(f[j] == s[s.len() - 1]);
            } else {
                assert(f[i] == g[i] && f[j] == g[j]);
            }
        }
    }
}

proof fn lemma_filter_exact(s: Seq<FileModel>, p: spec_fn(FileModel) -> bool)
    ensures
        forall|f: FileModel| #[trigger] s.filter(p).contains(f) <==> s.contains(f) && p(f),
{
    s.filter_lemma(p);
    lemma_filter_from(s, p);
    assert forall|f: FileModel| #[trigger] s.filter(p).contains(f) <==> s.contains(f) && p(f) by {
        if s.filter(p).contains(f) {
            let k = choose|k: int| 0 <= k < s.filter(p).len() && s.filter(p)[k] == f;
            assert(s.contains(s.filter(p)[k]));
        }
        if s.contains(f) && p(f) {
            let k = choose|k: int| 0 <= k < s.len() && s[k] == f;
            assert(s.filter(p).contains(s[k]));
        }
    }
}

/// A listing holds exactly the files that carry `tag` and whose names
/// start with `prefix`, in strictly ascending order of name.
pub proof fn lemma_listing_exact(m: CatalogModel, tag: Seq<char>, prefix: Seq<char>)
    requires
        catalog_wf(m),
    ensures
        forall|f: FileModel| #[trigger]
            listing(m.files, tag, prefix).contains(f) <==> m.files.contains(f) && has_tag(f, tag)
                && is_prefix(prefix, f.name),
        forall|i: int, j: int|
            0 <= i < j < listing(m.files, tag, prefix).len() ==> name_lt(
                #[trigger] listing(m.files, tag, prefix)[i].name,
                #[trigger] listing(m.files, tag, prefix)[j].name,
            ),
{
    lemma_filter_exact(m.files, query(tag, prefix, false));
    lemma_filter_ascending(m.files, query(tag, prefix, false));
}

/// A search holds exactly the files that carry `tag` and whose names
/// contain `term`, in strictly ascending order of name.
pub proof fn lemma_searching_exact(m: CatalogModel, tag: Seq<char>, term: Seq<char>)
    requires
        catalog_wf(m),
    ensures
        forall|f: FileModel| #[trigger]
            searching(m.files, tag, term).contains(f) <==> m.files.contains(f) && has_tag(f, tag)
                && is_infix(term, f.name),
        forall|i: int, j: int|
            0 <= i < j < searching(m.files, tag, term).len() ==> name_lt(
                #[trigger] searching(m.files, tag, term)[i].name,
                #[trigger] searching(m.files, tag, term)[j].name,
            ),
{
    lemma_filter_exact(m.files, query(tag, term, true));
    lemma_filter_ascending(m.files, query(tag, term, true));
}

/// Committing the same content under two names stores it once, and both
/// files get the same size and hash.
pub proof fn lemma_same_content_once(
    m: CatalogModel,
    name1: Seq<char>,
    name2: Seq<char>,
    hash: Seq<char>,
    size: u64,
    tags1: Seq<Seq<char>>,
    tags2: Seq<Seq<char>>,
    now1: i64,
    now2: i64,
)
    ensures
        has_content(after_commit(m, name1, hash, size, tags1, now1).contents, hash),
        after_commit(after_commit(m, name1, hash, size, tags1, now1), name2, hash, size, tags2, now2).contents
            == after_commit(m, name1, hash, size, tags1, now1).contents,
        committed_file(
            after_commit(m, name1, hash, size, tags1, now1).contents,
            name2,
            hash,
            size,
            tags2,
            now2,
        ).size == committed_file(m.contents, name1, hash, size, tags1, now1).size,
{
    let c = m.contents;
    let c1 = after_commit(m, name1, hash, size, tags1, now1).contents;
    if has_content(c, hash) {
        assert(c1 == c);
    } else {
        assert(c1 == c.push(ContentModel { hash, size }));
        assert(c1[c.len() as int].hash == hash);
        assert forall|j: int| 0 <= j < c.len() implies (#[trigger] c1[j]).hash != hash by {
            assert(c1[j] == c[j]);
        }
        assert forall|j: int| 0 <= j < c.len() implies (#[trigger] c[j]).hash != hash by {}
        lemma_stored_size_at(c1, hash, size, c.len() as int);
        lemma_stored_size_absent(c, hash, size);
    }
}

/// Deleting a file keeps every content, its own included.
pub proof fn lemma_delete_keeps_contents(m: CatalogModel, name: Seq<char>)
    ensures
        after_delete(m, name).contents == m.contents,
{
}

} // verus!
