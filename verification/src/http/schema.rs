//! The shapes of tile requests as they travel in URLs: raw slug
//! strings, their parsed form, and the query flag.

use crate::data::{
    spec_entry_slug, spec_parse_slug_list, spec_tile_slug, EntryID, EntryIDSlug, SlugParseError,
    TileID, TileIDSlug,
};
use vstd::prelude::*;

verus! {

/// The two path segments of a tile URL, still unparsed.
#[derive(Debug)]
pub struct TileRequestPath {
    pub entry_id: String,
    pub tile_id: String,
}

/// A parsed tile request.
#[derive(Debug)]
pub struct TileRequest {
    pub entry_id: EntryID,
    pub tile_id: TileID,
}

/// A tile request by reference, for rendering to a slug.
#[derive(Debug)]
pub struct TileRequestRef<'a> {
    pub entry_id: &'a EntryID,
    pub tile_id: TileID,
}

/// The query string of a tile request.
#[derive(Debug, Copy, Clone, PartialEq, Eq, Structural)]
pub struct TileQuery {
    pub full: bool,
}

impl TileRequestPath {
    /// Parse both slugs.  A bad number in either gives `ParseInt`; a
    /// tile slug with the wrong number of parts gives `TooFewValues`
    /// or `TooManyValues`.
    pub fn parse(&self) -> (r: Result<TileRequest, SlugParseError>)
        ensures
            (match r {
                Ok(t) => {
                    &&& spec_parse_slug_list(vstd::utf8::encode_utf8(self.entry_id@)) == Some(
                        t.entry_id@,
                    )
                    &&& (match spec_parse_slug_list(vstd::utf8::encode_utf8(self.tile_id@)) {
                        Option::Some(v) => v.len() == 2 && t.tile_id.0.start.0 == v[0]
                            && t.tile_id.0.stop.0 == v[1],
                        Option::None => false,
                    })
                },
                Err(e) => {
                    if spec_parse_slug_list(vstd::utf8::encode_utf8(self.entry_id@)) is None {
                        e == SlugParseError::ParseInt
                    } else {
                        match spec_parse_slug_list(vstd::utf8::encode_utf8(self.tile_id@)) {
                            Option::None => e == SlugParseError::ParseInt,
                            Option::Some(v) => (v.len() < 2 && e == SlugParseError::TooFewValues)
                                || (v.len() > 2 && e == SlugParseError::TooManyValues),
                        }
                    }
                },
            }),
    {
        let entry_id = match EntryID::from_slug(self.entry_id.as_str()) {
            Ok(e) => e,
            Err(e) => {
                return Err(e);
            },
        };
        let tile_id = match TileID::from_slug(self.tile_id.as_str()) {
            Ok(t) => t,
            Err(e) => {
                return Err(e);
            },
        };
        Ok(TileRequest { entry_id, tile_id })
    }
}

impl<'a> TileRequestRef<'a> {
    /// `<entry_slug>/<tile_slug>`, as used in URLs and archive paths.
    pub fn to_slug(&self) -> (r: String)
        ensures
            r@ == spec_entry_slug(self.entry_id@) + "/"@ + spec_tile_slug(self.tile_id),
    {
        let mut s = EntryIDSlug(self.entry_id).to_slug();
        s.append("/");
        let tile = TileIDSlug(self.tile_id).to_slug();
        s.append(tile.as_str());
        s
    }
}

} // verus!
