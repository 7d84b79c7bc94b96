//! Core of a modal, vi-like text editor: a character buffer with a derived
//! line/token index, a cursor with motion and edit operations, an incremental
//! recognizer for multi-key normal-mode commands with repeat counts and an
//! idle timeout, and a buffer for colon-prefixed ex commands.
//!
//! Rendering, window management and file I/O live outside this crate; the
//! editor itself is purely an in-memory state machine.
//!
//! The buffer is a sequence of characters and every offset (cursor index,
//! token start, line start) counts characters, so positions stay on
//! character boundaries for any text; for ASCII they coincide with byte
//! offsets.

pub mod command;
pub mod editor;
pub mod cooldown;
pub mod excmd;
pub mod text;
