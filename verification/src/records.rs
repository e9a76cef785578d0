//! Plain record types the engine exchanges with its persistence
//! collaborator: session bookkeeping, settings, folders and deletion
//! reports. The engine never stores or transmits them itself.

use vstd::prelude::*;

verus! {

/// A reading session being opened at a position of a text.
#[derive(Debug, Clone)]
pub struct StartSessionRequest {
    pub session_id: String,
    pub text_id: i64,
    pub start_position: i64,
}

/// A reading session being closed at a position, with its duration.
#[derive(Debug, Clone)]
pub struct EndSessionRequest {
    pub session_id: String,
    pub end_position: i64,
    pub duration_seconds: i64,
}

/// A stored key/value setting.
#[derive(Debug, Clone)]
pub struct Setting {
    pub key: String,
    pub value: String,
    pub updated_at: String,
}

/// A folder of the text library.
#[derive(Debug, Clone)]
pub struct Folder {
    pub id: String,
    pub name: String,
    pub parent_id: Option<String>,
    pub created_at: String,
    pub updated_at: String,
}

/// What a bulk mark deletion removed.
#[derive(Debug, Clone)]
pub struct DeleteMarksResult {
    pub deleted_count: usize,
    pub mark_ids: Vec<i64>,
}

/// What a bulk read-range deletion removed.
#[derive(Debug, Clone)]
pub struct DeleteReadRangesResult {
    pub deleted_count: usize,
}

} // verus!
