//! The files an operation reads and writes, held in memory: what `run`, `restore` and `diff`
//! compute is a function of the configuration and these contents.
use vstd::prelude::*;

verus! {

/// File contents by path.
pub struct Workspace {
    pub files: Vec<(String, String)>,
}

/// The mathematical form of a workspace: (path, content) pairs.
pub type FilesView = Seq<(Seq<char>, Seq<char>)>;

/// The index of the first entry for `path`.
pub open spec fn file_index_from(fs: FilesView, path: Seq<char>, i: int) -> Option<int>
    decreases fs.len() - i,
{
    if i < 0 || i >= fs.len() {
        None
    } else if fs[i].0 == path {
        Some(i)
    } else {
        file_index_from(fs, path, i + 1)
    }
}

/// The index of the entry for `path`.
pub open spec fn file_index(fs: FilesView, path: Seq<char>) -> Option<int> {
    file_index_from(fs, path, 0)
}

/// What `file_index_from` finds is an entry for the path, and none before it is.
pub proof fn lemma_file_index_from(fs: FilesView, path: Seq<char>, i: int)
    requires
        0 <= i,
    ensures
        file_index_from(fs, path, i) matches Some(j) ==> i <= j < fs.len() && fs[j].0 == path
            && forall|m: int| i <= m < j ==> #[trigger] fs[m].0 != path,
        file_index_from(fs, path, i) is None ==> forall|m: int| i <= m < fs.len() ==> #[trigger] fs[m].0 != path,
    decreases fs.len() - i,
{
    if i < fs.len() && fs[i].0 != path {
        lemma_file_index_from(fs, path, i + 1);
    }
}

/// The content of `path`, if the workspace holds it.
pub open spec fn ws_read(fs: FilesView, path: Seq<char>) -> Option<Seq<char>> {
    match file_index(fs, path) {
        Some(i) => Some(fs[i].1),
        None => None,
    }
}

/// The workspace after `content` is written to `path`.
pub open spec fn ws_write(fs: FilesView, path: Seq<char>, content: Seq<char>) -> FilesView {
    match file_index(fs, path) {
        Some(i) => fs.update(i, (path, content)),
        None => fs.push((path, content)),
    }
}

/// The first entry for `path` is at `j` when the entry at `j` is for `path` and none before is.
pub proof fn lemma_file_index_at(fs: FilesView, path: Seq<char>, i: int, j: int)
    requires
        0 <= i <= j < fs.len(),
        fs[j].0 == path,
        forall|m: int| i <= m < j ==> #[trigger] fs[m].0 != path,
    ensures
        file_index_from(fs, path, i) == Some(j),
    decreases j - i,
{
    if i < j {
        lemma_file_index_at(fs, path, i + 1, j);
    }
}

/// There is no entry for `path` when no entry from `i` on is for it.
pub proof fn lemma_file_index_none(fs: FilesView, path: Seq<char>, i: int)
    requires
        0 <= i,
        forall|m: int| i <= m < fs.len() ==> #[trigger] fs[m].0 != path,
    ensures
        file_index_from(fs, path, i) is None,
    decreases fs.len() - i,
{
    if i < fs.len() {
        lemma_file_index_none(fs, path, i + 1);
    }
}

/// Where the write puts `path`, and that every other entry stays.
proof fn lemma_write_shape(fs: FilesView, path: Seq<char>, content: Seq<char>)
    ensures
        ({
            let fs2 = ws_write(fs, path, content);
            let i = match file_index(fs, path) {
                Some(i) => i,
                None => fs.len() as int,
            };
            &&& file_index(fs2, path) == Some(i)
            &&& fs2[i] == (path, content)
            &&& fs2.len() == if i < fs.len() { fs.len() } else { fs.len() + 1 }
            &&& forall|m: int| 0 <= m < fs.len() && m != i ==> #[trigger] fs2[m] == fs[m]
        }),
{
    lemma_file_index_from(fs, path, 0);
    let fs2 = ws_write(fs, path, content);
    let i = match file_index(fs, path) {
        Some(i) => i,
        None => fs.len() as int,
    };
    assert forall|m: int| 0 <= m < i implies #[trigger] fs2[m].0 != path by {
        assert(fs2[m] == fs[m]);
    }
    lemma_file_index_at(fs2, path, 0, i);
}

/// Writing what a file already holds changes nothing.
pub proof fn lemma_write_same(fs: FilesView, path: Seq<char>, content: Seq<char>)
    requires
        ws_read(fs, path) == Some(content),
    ensures
        ws_write(fs, path, content) == fs,
{
    lemma_file_index_from(fs, path, 0);
    let i = file_index(fs, path).unwrap();
    assert(fs.update(i, (path, content)) =~= fs);
}

/// A file reads back what was last written to it.
pub proof fn lemma_read_write(fs: FilesView, path: Seq<char>, content: Seq<char>)
    ensures
        ws_read(ws_write(fs, path, content), path) == Some(content),
{
    lemma_write_shape(fs, path, content);
}

/// Reading another file is not affected by a write.
pub proof fn lemma_read_other(fs: FilesView, path: Seq<char>, content: Seq<char>, other: Seq<char>)
    requires
        other != path,
    ensures
        ws_read(ws_write(fs, path, content), other) == ws_read(fs, other),
{
    let fs2 = ws_write(fs, path, content);
    lemma_write_shape(fs, path, content);
    lemma_file_index_from(fs, other, 0);
    lemma_file_index_from(fs, path, 0);
    match file_index(fs, other) {
        Some(i) => {
            assert forall|m: int| 0 <= m < i implies #[trigger] fs2[m].0 != other by {
                if m < fs.len() {
                    if file_index(fs, path) == Some(m) {
                    } else {
                        assert(fs2[m] == fs[m]);
                    }
                }
            }
            assert(fs2[i] == fs[i]);
            lemma_file_index_at(fs2, other, 0, i);
        },
        None => {
            assert forall|m: int| 0 <= m < fs2.len() implies #[trigger] fs2[m].0 != other by {
                if m < fs.len() && file_index(fs, path) != Some(m) {
                    assert(fs2[m] == fs[m]);
                }
            }
            lemma_file_index_none(fs2, other, 0);
        },
    }
}

/// A second write to the same file replaces the first.
pub proof fn lemma_write_write(fs: FilesView, path: Seq<char>, c1: Seq<char>, c2: Seq<char>)
    ensures
        ws_write(ws_write(fs, path, c1), path, c2) == ws_write(fs, path, c2),
{
    let fs1 = ws_write(fs, path, c1);
    lemma_write_shape(fs, path, c1);
    lemma_file_index_from(fs, path, 0);
    match file_index(fs, path) {
        Some(i) => {
            assert(fs1.update(i, (path, c2)) =~= fs.update(i, (path, c2)));
        },
        None => {
            let n = fs.len() as int;
            assert(fs1.update(n, (path, c2)) =~= fs.push((path, c2)));
        },
    }
}

impl View for Workspace {
    type V = FilesView;

    open spec fn view(&self) -> FilesView {
        self.files@.map_values(|f: (String, String)| (f.0@, f.1@))
    }
}

impl Workspace {
    /// An empty workspace.
    pub fn new() -> (ws: Self)
        ensures
            ws@ == Seq::<(Seq<char>, Seq<char>)>::empty(),
    {
        let ws = Workspace { files: Vec::new() };
        assert(ws@ =~= Seq::<(Seq<char>, Seq<char>)>::empty());
        ws
    }

    fn index_of(&self, path: &str) -> (r: Option<usize>)
        ensures
            r matches Some(i) ==> i < self.files@.len() && file_index(self@, path@) == Some(i as int),
            r is None ==> file_index(self@, path@) is None,
    {
        let mut i: usize = 0;
        while i < self.files.len()
            invariant
                i <= self.files@.len(),
                file_index_from(self@, path@, 0) == file_index_from(self@, path@, i as int),
            decreases self.files@.len() - i,
        {
            if crate::text::str_eq(self.files[i].0.as_str(), path) {
                return Some(i);
            }
            i = i + 1;
        }
        None
    }

    /// The content of `path`, if the workspace holds it.
    pub fn read(&self, path: &str) -> (r: Option<&String>)
        ensures
            match r {
                Some(c) => ws_read(self@, path@) == Some(c@),
                None => ws_read(self@, path@) is None,
            },
    {
        match self.index_of(path) {
            Some(i) => Some(&self.files[i].1),
            None => None,
        }
    }

    /// Writes `content` to `path`, replacing what the workspace held there.
    pub fn write(&mut self, path: &str, content: String)
        ensures
            final(self)@ == ws_write(old(self)@, path@, content@),
    {
        let ghost before = self@;
        let ghost cv = content@;
        match self.index_of(path) {
            Some(i) => {
                proof {
                    lemma_file_index_from(before, path@, 0);
                }
                let (p, _) = self.files.remove(i);
                self.files.insert(i, (p, content));
                assert(self@ =~= before.update(i as int, (path@, cv)));
            },
            None => {
                self.files.push((path.to_owned(), content));
                assert(self@ =~= before.push((path@, cv)));
            },
        }
    }
}

} // verus!
