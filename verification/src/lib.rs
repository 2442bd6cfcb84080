//! HTTP/1.1 and WebSockets, for clients and for servers.
//!
//! Nothing here touches a stream. Functions that need one say what is to be done with it next, and
//! are told what came of that: bytes that were read, or bytes that were written.
pub mod address_laws;
pub mod buffer;
pub mod building_laws;
pub mod chunked;
pub mod chunked_laws;
pub mod client_laws;
pub mod client_pool;
pub mod conn;
pub mod conn_blocking;
pub mod conn_laws;
pub mod conn_order;
pub mod conn_pool;
pub mod encoding;
pub mod error;
pub mod headers;
pub mod http_client;
pub mod http_server;
pub mod id_map;
pub mod lines;
pub mod method;
pub mod pool_laws;
pub mod reading_laws;
pub mod request;
pub mod request_build;
pub mod request_laws;
pub mod request_read;
pub mod request_stream_laws;
pub mod response;
pub mod response_head;
pub mod response_laws;
pub mod response_read;
pub mod response_stream_laws;
pub mod round_laws;
pub mod sending_laws;
pub mod sent_request;
pub mod server_laws;
pub mod serving_laws;
pub mod stream;
pub mod text;
pub mod tick;
pub mod tls;
pub mod uri;
pub mod ws_accept;
pub mod ws_client;
pub mod ws_cut_laws;
pub mod ws_frame;
pub mod ws_handshake;
pub mod ws_handshake_laws;
pub mod ws_laws;
pub mod ws_opening_laws;
pub mod ws_parser;
pub mod ws_round_laws;
pub mod ws_server;
pub mod ws_serving_laws;
pub mod ws_stream;
pub mod ws_streaming_laws;
pub mod ws_types;

pub use buffer::{join_buffers, BufferVec, ExpandVec};
pub use chunked::{parse_hex_uint, read_chunks, try_read_chunks, ChunksReadState};
pub use client_pool::{
    HttpConnClientPool, PoolReadEvent, PoolReadStep, PoolWriteEvent, PoolWriteStep,
};
pub use conn::{
    tls_client, ClientFault, ClientStep, ConnReadEvent, ConnWriteEvent, ConnWriteStep, HttpConn,
    HttpConnBlockingClient, HttpConnBlockingClientType, HttpConnClient, HttpConnClientType,
    HttpConnError, HttpConnServer, HttpConnServerType, ServerFault, ServerStep,
};
pub use conn_blocking::{SendEvent, SendStep};
pub use conn_pool::{ConnPool, ConnPoolGuard};
pub use error::{HttpError, HttpParseError};
pub use http_client::{HttpClient, HttpSend, HttpSendEvent, HttpSendStep};
pub use http_server::{
    HttpServer, HttpServerConfig, HttpServerConns, HttpServerContext, HttpServerHandler,
    ServerTickEvent, ServerTickStep,
};
pub use method::HttpMethod;
pub use request::{HttpHeader, HttpRequestReader, HttpRequestReaderEx, RequestHead};
pub use request_build::{HttpRequestBuilder, RequestMethod};
pub use request_read::{HttpRequestReadState, RequestFault, RequestStep};
pub use response::{HttpResponse, HttpResponseBuilder};
pub use response_read::{HttpResponseReadState, ResponseFault, ResponseHead, ResponseStep};
pub use stream::{IOError, StreamRead};
pub use tick::TickResult;
pub use tls::{choose_tls, tls_choice, TlsChoice};
pub use uri::{Uri, UriError, UriParts};
pub use ws_accept::{
    WsAcceptEvent, WsAcceptFault, WsAcceptStep, WsServerHandshakeState, WsStreamServer,
};
pub use ws_client::{WsClientHandshakeState, WsConnectEvent, WsConnectStep, WsStreamClient};
pub use ws_handshake::{
    get_websocket_ctx, read_handshake_response, try_get_websocket_ctx, WsContext, WsHandshakeError,
};
pub use ws_server::{
    HttpWsServer, HttpWsServerConfig, HttpWsServerContext, HttpWsServerHandler, HttpWsTickEvent,
    HttpWsTickStep, WsHandler, WsRequestStep, WsServerConns, WsTickEvent, WsTickStep,
};
pub use ws_stream::{
    BlockingStep, WsReadEvent, WsReadStep, WsStream, WsStreamConfig, WsWriteStep,
};
pub use ws_types::{WsDataType, WsError, WsReceiveType, WsSendType};
