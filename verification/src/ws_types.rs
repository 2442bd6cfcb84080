//! The kinds of websocket messages, and the ways in which a websocket stream fails.
use vstd::prelude::*;

verus! {

/// The kind of a data message.
#[derive(Debug, Clone, Copy, PartialEq, Eq, Structural)]
pub enum WsDataType {
    Binary,
    Text,
}

/// The kind of a message that is sent.
#[derive(Debug, Clone, Copy, PartialEq, Eq, Structural)]
pub enum WsSendType {
    Text,
    Binary,
    Ping,
    Pong,
    /// The answer to a request to close.
    CloseReply,
}

impl vstd::std_specs::convert::FromSpecImpl<WsDataType> for WsSendType {
    open spec fn obeys_from_spec() -> bool {
        true
    }

    open spec fn from_spec(ty: WsDataType) -> WsSendType {
        match ty {
            WsDataType::Binary => WsSendType::Binary,
            WsDataType::Text => WsSendType::Text,
        }
    }
}

impl From<WsDataType> for WsSendType {
    fn from(ty: WsDataType) -> (r: WsSendType) {
        match ty {
            WsDataType::Binary => WsSendType::Binary,
            WsDataType::Text => WsSendType::Text,
        }
    }
}

/// The kind of a message that is received.
#[derive(Debug, Clone, Copy, PartialEq, Eq, Structural)]
pub enum WsReceiveType {
    Text,
    Binary,
    /// The other side has answered a request to close.
    CloseCompleted,
    /// The other side asks to close.
    CloseMustReply,
    Ping,
    Pong,
}

/// Why a websocket stream did not do what it was asked to.
#[derive(Debug, PartialEq, Eq)]
pub enum WsError {
    /// A new connection could not be set up.
    InitError(String),
    /// The remote side is not ready.
    WouldBlock,
    /// The connection is gone; with `temporary`, it is worth trying again later.
    ServerDisconnected { temporary: bool },
}

/// What a [`WsError`] tells.
pub enum WsErrorView {
    InitError(Seq<char>),
    WouldBlock,
    ServerDisconnected { temporary: bool },
}

impl View for WsError {
    type V = WsErrorView;

    open spec fn view(&self) -> WsErrorView {
        match *self {
            WsError::InitError(text) => WsErrorView::InitError(text@),
            WsError::WouldBlock => WsErrorView::WouldBlock,
            WsError::ServerDisconnected { temporary } => WsErrorView::ServerDisconnected {
                temporary,
            },
        }
    }
}

} // verus!
