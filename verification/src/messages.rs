//! The request and event types bridging the server and its clients.

use crate::client::LocalState;
use crate::hand::Call;
use crate::match_state::MatchId;
use crate::tile::{TileId, Wind};
use vstd::prelude::*;

verus! {

/// A protocol version: the parts of a semantic version that the
/// compatibility policy reads.
#[derive(Debug, Clone, Copy, PartialEq, Eq, Structural)]
pub struct ProtocolVersion {
    pub major: u64,
    pub minor: u64,
    pub patch: u64,
}

/// The development-time compatibility policy: client and server must run
/// the exact same version.
pub fn versions_compatible(client: ProtocolVersion, server: ProtocolVersion) -> (r: bool)
    ensures
        r == (client == server),
{
    client.major == server.major && client.minor == server.minor && client.patch == server.patch
}

/// Unique id of a game account.
#[derive(Debug, Clone, Copy, PartialEq, Eq, PartialOrd, Ord, Hash, Structural)]
pub struct AccountId(pub u64);

impl AccountId {
    /// Creates an `AccountId` from a numeric id. Only the server should
    /// mint new account ids.
    pub fn new(id: u64) -> (r: Self)
        ensures
            r == AccountId(id),
    {
        Self(id)
    }
}

/// Unique id of a client session; unique among the active sessions.
#[derive(Debug, Clone, Copy, PartialEq, Eq, Hash, Structural)]
pub struct SessionId(pub u32);

/// The persistent state of an account.
#[derive(Debug, Clone, Copy, PartialEq, Eq, Structural)]
pub struct AccountState {
    /// The player's point balance.
    pub points: u64,
}

/// The id and token a client logs in with.
#[derive(Debug)]
pub struct Credentials {
    pub id: AccountId,
    pub token: String,
}

impl Clone for Credentials {
    /// A copy carrying the very same id and token.
    fn clone(&self) -> (r: Self)
        ensures
            r.id == self.id,
            r.token == self.token,
    {
        Credentials { id: self.id, token: self.token.clone() }
    }
}

/// Initial request sent by the client right after connecting.
#[derive(Debug, Clone)]
pub struct HandshakeRequest {
    /// An incompatible client version makes the server reject the
    /// handshake.
    pub client_version: ProtocolVersion,
    /// Account to log into; absent for a fresh account.
    pub credentials: Option<Credentials>,
}

/// The server's answer to a handshake.
#[derive(Debug, Clone)]
pub struct HandshakeResponse {
    pub server_version: ProtocolVersion,
    pub new_credentials: Option<Credentials>,
    pub account_data: AccountState,
}

/// A request a logged-in client can make.
#[derive(Debug, Clone)]
pub enum ClientRequest {
    StartMatch,
    DiscardTile(DiscardTileRequest),
    CallTile(CallTileRequest),
}

/// A discard submitted by a client.
#[derive(Debug, Clone, Copy, PartialEq, Eq, Structural)]
pub struct DiscardTileRequest {
    pub id: MatchId,
    pub player: Wind,
    pub tile: TileId,
}

/// A call — or a pass, when `call` is absent — submitted by a client.
#[derive(Debug, Clone, Copy, PartialEq, Eq, Structural)]
pub struct CallTileRequest {
    pub id: MatchId,
    pub player: Wind,
    pub call: Option<Call>,
}

/// The state snapshot answering a start-match request.
#[derive(Debug)]
pub struct StartMatchResponse {
    pub state: LocalState,
}

/// The echo answering a discard request.
#[derive(Debug)]
pub struct DiscardTileResponse {
    pub success: bool,
    pub state: LocalState,
}

/// An event that happened during the match, broadcast by the server so
/// every client can mirror the change.
#[derive(Debug, Clone)]
pub enum MatchEvent {
    /// The receiving player drew a tile; only the drawing seat gets this.
    LocalDraw { seat: Wind, tile: TileId },
    /// Another player drew; the tile stays hidden.
    RemoteDraw { seat: Wind },
    /// A player discarded a tile. `calls` holds only the calls that the
    /// receiving client may make — each client learns nothing about what
    /// the other seats could do.
    TileDiscarded { seat: Wind, tile: TileId, calls: Vec<Call> },
    /// A player called the last discarded tile.
    Call(FinalCall),
    /// Every waiting player passed on the last discard.
    Pass,
    /// The match is over.
    MatchEnded { winner: Option<Wind> },
}

/// The winning call of a call phase.
#[derive(Debug, Clone, Copy, PartialEq, Eq, Structural)]
pub struct FinalCall {
    pub caller: Wind,
    pub called_from: Wind,
    pub discard: TileId,
    pub winning_call: Call,
}

/// Account-level state a client tracks outside any match.
#[derive(Debug, Clone)]
pub struct ClientState {
    pub credentials: Option<Credentials>,
    pub state: Option<AccountState>,
}

impl ClientState {
    pub fn new() -> (r: ClientState)
        ensures
            r.credentials is None,
            r.state is None,
    {
        ClientState { credentials: None, state: None }
    }

    pub fn set_credentials(&mut self, id: u64, token: String)
        ensures
            final(self).credentials matches Some(c) && c.id == AccountId(id) && c.token == token,
            final(self).state == old(self).state,
    {
        let id = AccountId::new(id);
        self.credentials = Some(Credentials { id, token });
    }

    /// Builds the handshake request for the client's version and stored
    /// credentials.
    pub fn create_handshake_request(&self, client_version: ProtocolVersion) -> (r:
        HandshakeRequest)
        ensures
            r.client_version == client_version,
            self.credentials is None ==> r.credentials is None,
            self.credentials matches Some(c) ==> (r.credentials matches Some(c2) && c2.id == c.id
                && c2.token == c.token),
    {
        let credentials = match &self.credentials {
            Some(c) => Some(c.clone()),
            None => None,
        };
        HandshakeRequest { client_version, credentials }
    }

    /// Applies a handshake response: fresh credentials (when the server
    /// issued some) and the account data are stored.
    pub fn handle_handshake_response(&mut self, response: HandshakeResponse)
        ensures
            final(self).state == Some(response.account_data),
            response.new_credentials is Some ==> final(self).credentials
                == response.new_credentials,
            response.new_credentials is None ==> final(self).credentials == old(self).credentials,
    {
        match response.new_credentials {
            Some(new_credentials) => {
                self.credentials = Some(new_credentials);
            },
            None => {},
        }
        self.state = Some(response.account_data);
    }

    /// Builds the request that asks the server for a new match.
    pub fn create_start_match_request(&self) -> (r: ClientRequest)
        ensures
            r is StartMatch,
    {
        ClientRequest::StartMatch
    }

    /// Extracts the initial local state from a start-match response.
    pub fn handle_start_match_response(&self, response: StartMatchResponse) -> (r: LocalState)
        ensures
            r == response.state,
    {
        response.state
    }

    /// The logged-in account's id; the client must hold credentials.
    pub fn account_id(&self) -> (r: AccountId)
        requires
            self.credentials is Some,
        ensures
            r == (self.credentials->Some_0).id,
    {
        match &self.credentials {
            Some(c) => c.id,
            None => unreached(),
        }
    }

    /// The account's point balance; account data must have arrived.
    pub fn points(&self) -> (r: u64)
        requires
            self.state is Some,
        ensures
            r == (self.state->Some_0).points,
    {
        match &self.state {
            Some(s) => s.points,
            None => unreached(),
        }
    }
}

} // verus!
