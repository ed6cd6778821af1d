//! The storage abstraction: a side of a pair is either a flat file or a
//! remote bookmark service. The engine holds each side's fetched state as
//! plain values; reading and writing the file, running the credential
//! helpers and talking to the service belong to the surrounding process,
//! which converts between the wire formats and these records.

use vstd::prelude::*;
use crate::ConflictResolution;
use crate::model::{BookmarkModel, dedup_model, lemma_dedup_model, uniq_paths};
use crate::remote::{ApplyPlan, NextcloudStorage, apply_plan_post, nc_list_model};
use crate::textfile::{parse_content, render_model, read_file_content, render_state};
use crate::types::{
    Bookmark, SBookmark, Changes, Error, abs_bms, abs_sbms, dedup_bookmarks, is_missing_config,
};

verus! {

/// The flat-file side: the file's text as last read (`None` when the file
/// does not exist) and its modification time.
pub struct FileStorage {
    pub lastmodified: u64,
    pub content: Option<String>,
}

impl FileStorage {
    /// The listing this file encodes: its non-empty lines, duplicate paths
    /// collapsed so that the last occurrence wins; a missing file is an
    /// empty listing.
    pub open spec fn list_model(self) -> Seq<BookmarkModel> {
        match self.content {
            Some(c) => dedup_model(parse_content(self.lastmodified as int, c@)),
            None => Seq::empty(),
        }
    }

    /// Read the listing out of the file text.
    pub fn list(&self) -> (r: Result<Vec<Bookmark>, Error>)
        ensures
            match r {
                Ok(v) => abs_bms(v@) == self.list_model(),
                Err(_) => false,
            },
    {
        match &self.content {
            None => {
                let v: Vec<Bookmark> = Vec::new();
                proof {
                    assert(abs_bms(v@) =~= Seq::<BookmarkModel>::empty());
                }
                Ok(v)
            },
            Some(c) => {
                let parsed = read_file_content(self.lastmodified, c);
                Ok(dedup_bookmarks(&parsed))
            },
        }
    }

    /// Overwrite the file with the new snapshot: the change set is ignored,
    /// the whole state is rewritten. Returns the text to persist.
    pub fn apply(&mut self, new_state: &Vec<SBookmark>) -> (r: String)
        ensures
            r@ == render_model(abs_sbms(new_state@)),
            final(self).lastmodified == old(self).lastmodified,
            final(self).content matches Some(c) && c@ == render_model(abs_sbms(new_state@)),
    {
        let text = render_state(new_state);
        self.content = Some(text.clone());
        text
    }
}

/// What one `apply` asks the surrounding process to perform: overwrite the
/// file with this text, or execute this remote plan.
pub enum ApplyOutcome {
    WriteFile(String),
    Remote(ApplyPlan),
}

/// One side of a pair.
pub enum Storage {
    File(FileStorage),
    Nextcloud(NextcloudStorage),
}

/// How `apply` changes a side and what it hands out: a file side is
/// overwritten from the snapshot and keeps the rendered text; a remote side
/// yields the plan of service operations and is otherwise untouched.
pub open spec fn apply_outcome_post(
    pre: Storage,
    post: Storage,
    changes: Changes,
    ns: Seq<crate::model::SBookmarkModel>,
    o: ApplyOutcome,
) -> bool {
    match pre {
        Storage::File(f) => match (o, post) {
            (ApplyOutcome::WriteFile(c), Storage::File(f2)) => {
                &&& c@ == render_model(ns)
                &&& f2.lastmodified == f.lastmodified
                &&& match f2.content {
                    Some(c2) => c2@ == render_model(ns),
                    None => false,
                }
            },
            _ => false,
        },
        Storage::Nextcloud(n) => match o {
            ApplyOutcome::Remote(plan) => apply_plan_post(n.folders@, changes, plan) && post == pre,
            _ => false,
        },
    }
}

impl Storage {
    /// The listing this side currently reports.
    pub open spec fn list_model(self) -> Seq<BookmarkModel> {
        match self {
            Storage::File(f) => f.list_model(),
            Storage::Nextcloud(n) => dedup_model(nc_list_model(n.folders@, n.bookmarks@)),
        }
    }

    /// List the side's current bookmarks; paths are unique in the result.
    pub fn list(&self) -> (r: Result<Vec<Bookmark>, Error>)
        ensures
            match r {
                Ok(v) => abs_bms(v@) == self.list_model() && uniq_paths(abs_bms(v@)),
                Err(_) => false,
            },
    {
        match self {
            Storage::File(f) => {
                let r = f.list();
                proof {
                    match &f.content {
                        Some(c) => {
                            lemma_dedup_model(parse_content(f.lastmodified as int, c@));
                        },
                        None => {},
                    }
                }
                r
            },
            Storage::Nextcloud(n) => {
                let r = n.list();
                proof {
                    lemma_dedup_model(nc_list_model(n.folders@, n.bookmarks@));
                }
                r
            },
        }
    }

    /// Apply a change set to this side, handing back what the surrounding
    /// process must perform.
    pub fn apply(&mut self, changes: &Changes, new_state: &Vec<SBookmark>) -> (r: Result<
        ApplyOutcome,
        Error,
    >)
        ensures
            match r {
                Ok(o) => apply_outcome_post(*old(self), *final(self), *changes, abs_sbms(new_state@), o),
                Err(_) => false,
            },
    {
        match self {
            Storage::File(f) => {
                let text = f.apply(new_state);
                Ok(ApplyOutcome::WriteFile(text))
            },
            Storage::Nextcloud(n) => {
                let plan = n.apply(changes);
                Ok(ApplyOutcome::Remote(plan))
            },
        }
    }
}

/// The kind of backend a storage section configures.
#[derive(Clone, Copy, PartialEq, Eq, Structural, Debug)]
pub enum StorageType {
    Nextcloud,
    File,
}

/// A command whose execution yields a secret; the engine only carries it,
/// the surrounding process runs it.
pub struct Command {
    pub fetch: Vec<String>,
}

impl Command {
    /// A copy carrying the same command words.
    pub fn duplicate(&self) -> (r: Command)
        ensures
            r.fetch@ == self.fetch@,
    {
        let mut fetch: Vec<String> = Vec::new();
        let mut i: usize = 0;
        while i < self.fetch.len()
            invariant
                i <= self.fetch.len(),
                fetch@ == self.fetch@.take(i as int),
            decreases self.fetch.len() - i,
        {
            fetch.push(self.fetch[i].clone());
            proof {
                assert(fetch@ =~= self.fetch@.take(i + 1));
            }
            i += 1;
        }
        proof {
            assert(self.fetch@.take(self.fetch@.len() as int) =~= self.fetch@);
        }
        Command { fetch }
    }
}

/// One storage section of the configuration.
pub struct StorageConfig {
    pub kind: StorageType,
    pub url: Option<String>,
    pub path: Option<String>,
    pub username: Option<Command>,
    pub password: Option<Command>,
}

/// One pair section of the configuration: the names of the two storages and
/// the conflict policy.
pub struct PairConfig {
    pub a: String,
    pub b: String,
    pub conflict_resolution: ConflictResolution,
}

/// What a validated storage section asks the surrounding process to open: a
/// file at this path, or a remote service at this url with credentials from
/// these commands.
pub enum StorageSpec {
    File { path: String },
    Nextcloud { url: String, username: Command, password: Command },
}

/// What `from_config` returns for each configuration: a file section needs
/// `path`; a remote section needs `url`, `username` and `password`, checked
/// in that order; the first absent field is the reported one.
pub open spec fn from_config_post(cfg: StorageConfig, r: Result<StorageSpec, Error>) -> bool {
    match cfg.kind {
        StorageType::File => match (cfg.path, r) {
            (Some(p), Ok(s)) => match s {
                StorageSpec::File { path } => path@ == p@,
                _ => false,
            },
            (None, Err(e)) => is_missing_config(e, "path"@),
            _ => false,
        },
        StorageType::Nextcloud => match (cfg.url, cfg.username, cfg.password) {
            (None, _, _) => r matches Err(e) && is_missing_config(e, "url"@),
            (Some(_), None, _) => r matches Err(e) && is_missing_config(e, "username"@),
            (Some(_), Some(_), None) => r matches Err(e) && is_missing_config(e, "password"@),
            (Some(u), Some(us), Some(pw)) => match r {
                Ok(s) => match s {
                    StorageSpec::Nextcloud { url, username, password } => url@ == u@
                        && username.fetch@ == us.fetch@ && password.fetch@ == pw.fetch@,
                    _ => false,
                },
                Err(_) => false,
            },
        },
    }
}

impl Storage {
    /// Validate one storage section and name what the surrounding process
    /// must open for it.
    pub fn from_config(cfg: &StorageConfig) -> (r: Result<StorageSpec, Error>)
        ensures
            from_config_post(*cfg, r),
    {
        match cfg.kind {
            StorageType::Nextcloud => Storage::from_config_nc(cfg),
            StorageType::File => {
                match &cfg.path {
                    Some(path) => Ok(StorageSpec::File { path: path.clone() }),
                    None => Err(Error::MissingConfig(String::from_str("path"))),
                }
            },
        }
    }

    /// The remote half of [`Storage::from_config`].
    fn from_config_nc(cfg: &StorageConfig) -> (r: Result<StorageSpec, Error>)
        requires
            cfg.kind == StorageType::Nextcloud,
        ensures
            from_config_post(*cfg, r),
    {
        let url = match &cfg.url {
            Some(u) => u.clone(),
            None => {
                return Err(Error::MissingConfig(String::from_str("url")));
            },
        };
        let username = match &cfg.username {
            Some(c) => c.duplicate(),
            None => {
                return Err(Error::MissingConfig(String::from_str("username")));
            },
        };
        let password = match &cfg.password {
            Some(c) => c.duplicate(),
            None => {
                return Err(Error::MissingConfig(String::from_str("password")));
            },
        };
        Ok(StorageSpec::Nextcloud { url, username, password })
    }
}

} // verus!
