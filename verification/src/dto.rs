//! The join request's parameters, as the handshake hands them over.

use vstd::prelude::*;

verus! {

/// The out-of-band parameters of one join request: which room, as whom.
/// The registry rejects a join whose room identifier or username is empty.
#[derive(Debug)]
pub struct RoomInfoDTO {
    /// The requested room's identifier.
    pub room_id: String,
    /// The username the connection will speak as.
    pub username: String,
}

impl RoomInfoDTO {
    /// Whether both parameters are present and non-empty, exactly the
    /// condition under which the registry accepts the join.
    pub fn is_valid(&self) -> (b: bool)
        ensures
            b == (self.room_id@.len() > 0 && self.username@.len() > 0),
    {
        !self.room_id.as_str().is_empty() && !self.username.as_str().is_empty()
    }
}

} // verus!
