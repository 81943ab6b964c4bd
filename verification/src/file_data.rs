//! Resolving archive reads to file paths.  The reader side of the
//! archive format is a set of lookups: compute the slug path under
//! the archive directory, then decode what the file holds.  The path
//! arithmetic lives here; opening and decoding the files is I/O and
//! stays with the caller.

use crate::data::{spec_entry_slug, spec_tile_slug, DataSourceDescription, EntryID, TileID};
use crate::http::schema::TileRequestRef;
use vstd::prelude::*;

verus! {

/// A random-access reader over an archive directory.
#[derive(Debug)]
pub struct FileDataSource {
    pub basedir: String,
}

impl FileDataSource {
    pub fn new(basedir: String) -> (r: Self)
        ensures
            r.basedir@ == basedir@,
    {
        Self { basedir }
    }

    /// The locator is the archive directory itself.
    pub fn fetch_description(&self) -> (r: DataSourceDescription)
        ensures
            r.source_locator@.len() == 1,
            r.source_locator@[0]@ == self.basedir@,
    {
        let mut source_locator: Vec<String> = Vec::new();
        source_locator.push(self.basedir.clone());
        proof {
            assert(vstd::pervasive::cloned::<String>(
                self.basedir,
                source_locator@[0],
            ));
        }
        DataSourceDescription { source_locator }
    }

    /// Where the info envelope lives.
    pub fn info_path(&self) -> (r: String)
        ensures
            r@ == self.basedir@ + "/info"@,
    {
        let mut s = self.basedir.clone();
        s.append("/info");
        s
    }

    /// Where a summary tile lives.
    pub fn summary_tile_path(&self, entry_id: &EntryID, tile_id: TileID) -> (r: String)
        ensures
            r@ == self.basedir@ + "/summary_tile/"@ + spec_entry_slug(entry_id@) + "/"@
                + spec_tile_slug(tile_id),
    {
        let mut s = self.basedir.clone();
        s.append("/summary_tile/");
        let slug = TileRequestRef { entry_id, tile_id }.to_slug();
        s.append(slug.as_str());
        proof {
            assert(s@ =~= self.basedir@ + "/summary_tile/"@ + spec_entry_slug(entry_id@) + "/"@
                + spec_tile_slug(tile_id));
        }
        s
    }

    /// Where a slot tile lives.
    pub fn slot_tile_path(&self, entry_id: &EntryID, tile_id: TileID) -> (r: String)
        ensures
            r@ == self.basedir@ + "/slot_tile/"@ + spec_entry_slug(entry_id@) + "/"@
                + spec_tile_slug(tile_id),
    {
        let mut s = self.basedir.clone();
        s.append("/slot_tile/");
        let slug = TileRequestRef { entry_id, tile_id }.to_slug();
        s.append(slug.as_str());
        proof {
            assert(s@ =~= self.basedir@ + "/slot_tile/"@ + spec_entry_slug(entry_id@) + "/"@
                + spec_tile_slug(tile_id));
        }
        s
    }

    /// Where a meta tile lives.
    pub fn slot_meta_tile_path(&self, entry_id: &EntryID, tile_id: TileID) -> (r: String)
        ensures
            r@ == self.basedir@ + "/slot_meta_tile/"@ + spec_entry_slug(entry_id@) + "/"@
                + spec_tile_slug(tile_id),
    {
        let mut s = self.basedir.clone();
        s.append("/slot_meta_tile/");
        let slug = TileRequestRef { entry_id, tile_id }.to_slug();
        s.append(slug.as_str());
        proof {
            assert(s@ =~= self.basedir@ + "/slot_meta_tile/"@ + spec_entry_slug(entry_id@) + "/"@
                + spec_tile_slug(tile_id));
        }
        s
    }
}

} // verus!
