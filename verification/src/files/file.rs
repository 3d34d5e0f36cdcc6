use crate::base::string::{contains_text, occurs_in, same_text};
use crate::files::parse::{copy_texts, texts};
use vstd::prelude::*;

verus! {

/// A file that was found: its directory, its name, its full path and the
/// time it was last modified, in seconds since the epoch.
pub struct FileMeta {
    pub dir: String,
    pub file_name: String,
    pub full_path: String,
    pub modified: u64,
}

/// What walking the data path finds at one place.
pub struct Entry {
    pub path: String,
    pub file_name: String,
    pub parent: Option<String>,
    pub extension: Option<String>,
    pub is_dir: bool,
    pub modified: u64,
}

/// Chooses the files under a data path: those with a given extension that
/// lie in no ignored directory.
pub struct FileOperator {
    pub data_path: String,
    pub file_ext: String,
    pub ignore_dirs: Vec<String>,
}

/// Whether one of `parts` stands somewhere in `name`.
pub open spec fn names_any(name: Seq<char>, parts: Seq<Seq<char>>) -> bool {
    exists|i: int| 0 <= i < parts.len() && occurs_in(name, #[trigger] parts[i])
}

/// Whether an entry is a file with the extension `file_ext`.
pub open spec fn is_wanted(entry: Entry, file_ext: Seq<char>) -> bool {
    &&& !entry.is_dir
    &&& entry.extension matches Some(ext)
    &&& ext@ == file_ext
}

/// The file that a wanted entry stands for; a file without a parent has an
/// empty directory.
pub open spec fn meta_of(entry: Entry) -> (Seq<char>, Seq<char>, Seq<char>, u64) {
    (
        match entry.parent {
            Some(dir) => dir@,
            None => Seq::empty(),
        },
        entry.file_name@,
        entry.path@,
        entry.modified,
    )
}

impl View for FileMeta {
    type V = (Seq<char>, Seq<char>, Seq<char>, u64);

    open spec fn view(&self) -> (Seq<char>, Seq<char>, Seq<char>, u64) {
        (self.dir@, self.file_name@, self.full_path@, self.modified)
    }
}

/// The views of a run of files.
pub open spec fn meta_views(metas: Seq<FileMeta>) -> Seq<(Seq<char>, Seq<char>, Seq<char>, u64)> {
    Seq::new(metas.len(), |i: int| metas[i]@)
}

/// The files among `entries` with the extension `file_ext`, in the order
/// in which they were found.
pub open spec fn listed(entries: Seq<Entry>, file_ext: Seq<char>) -> Seq<
    (Seq<char>, Seq<char>, Seq<char>, u64),
>
    decreases entries.len(),
{
    if entries.len() == 0 {
        Seq::empty()
    } else if is_wanted(entries.last(), file_ext) {
        listed(entries.drop_last(), file_ext).push(meta_of(entries.last()))
    } else {
        listed(entries.drop_last(), file_ext)
    }
}

impl FileOperator {
    /// A chooser for the files under `data_path` that end in `file_ext`,
    /// outside the directories whose names hold one of `ignore_dirs`.
    pub fn create(data_path: &str, file_ext: &str, ignore_dirs: &[String]) -> (operator:
        FileOperator)
        ensures
            operator.data_path@ == data_path@,
            operator.file_ext@ == file_ext@,
            texts(operator.ignore_dirs@) == texts(ignore_dirs@),
    {
        FileOperator {
            data_path: data_path.to_owned(),
            file_ext: file_ext.to_owned(),
            ignore_dirs: copy_texts(ignore_dirs),
        }
    }

    /// Whether the walk leaves an entry and all below it out: it is a
    /// directory whose name holds one of the ignored names.
    pub fn is_skipped_entry(&self, file_name: &str, is_dir: bool) -> (skipped: bool)
        ensures
            skipped == (is_dir && names_any(file_name@, texts(self.ignore_dirs@))),
    {
        if !is_dir {
            return false;
        }
        let mut i: usize = 0;
        while i < self.ignore_dirs.len()
            invariant
                is_dir,
                i <= self.ignore_dirs.len(),
                forall|j: int|
                    0 <= j < i ==> !occurs_in(file_name@, #[trigger] texts(self.ignore_dirs@)[j]),
            decreases self.ignore_dirs.len() - i,
        {
            assert(texts(self.ignore_dirs@)[i as int] == self.ignore_dirs@[i as int]@);
            if contains_text(file_name, self.ignore_dirs[i].as_str()) {
                assert(occurs_in(file_name@, texts(self.ignore_dirs@)[i as int]));
                return true;
            }
            i += 1;
        }
        false
    }

    /// The file that an entry stands for, where it is a file with the
    /// wanted extension.
    pub fn select(&self, entry: &Entry) -> (meta: Option<FileMeta>)
        ensures
            match meta {
                Some(m) => is_wanted(*entry, self.file_ext@) && m@ == meta_of(*entry),
                None => !is_wanted(*entry, self.file_ext@),
            },
    {
        if entry.is_dir {
            return None;
        }
        match &entry.extension {
            Some(ext) => {
                if !same_text(ext.as_str(), self.file_ext.as_str()) {
                    return None;
                }
            },
            None => {
                return None;
            },
        }
        let dir = match &entry.parent {
            Some(dir) => dir.clone(),
            None => String::new(),
        };
        Some(
            FileMeta {
                dir,
                file_name: entry.file_name.clone(),
                full_path: entry.path.clone(),
                modified: entry.modified,
            },
        )
    }

    /// Lists the files among the entries that the walk found, in the order
    /// in which it found them.
    pub fn list(&self, entries: &Vec<Entry>) -> (metas: Vec<FileMeta>)
        ensures
            meta_views(metas@) == listed(entries@, self.file_ext@),
    {
        let mut metas: Vec<FileMeta> = Vec::new();
        let mut i: usize = 0;
        assert(entries@.take(0).len() == 0);
        assert(meta_views(metas@) == listed(entries@.take(0), self.file_ext@));
        while i < entries.len()
            invariant
                i <= entries.len(),
                meta_views(metas@) == listed(entries@.take(i as int), self.file_ext@),
            decreases entries.len() - i,
        {
            proof {
                assert(entries@.take(i + 1).drop_last() == entries@.take(i as int));
                assert(entries@.take(i + 1).last() == entries@[i as int]);
            }
            match self.select(&entries[i]) {
                Some(meta) => {
                    let ghost before = metas@;
                    metas.push(meta);
                    assert(meta_views(metas@) == meta_views(before).push(meta@));
                },
                None => {},
            }
            i += 1;
        }
        assert(entries@.take(entries.len() as int) == entries@);
        metas
    }
}

} // verus!
