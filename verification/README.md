# http

HTTP/1.1 and WebSockets for clients and servers, verified with Verus.

`src/` is the library. It never touches a stream: a function that needs one returns a step that says
what is to be done next (read so many bytes, write out what is queued, open a stream), and is called
again with the event that came of it. What each step and each event does to the state is stated over
plain values, so the contracts hold for every way in which bytes can arrive.

`app/` performs the steps over TCP and TLS, keeps the clocks and runs the loops.

| Modules | Subject |
| --- | --- |
| `request`, `request_read`, `request_build`, `sent_request` | requests: their heads, reading and building them |
| `response`, `response_head`, `response_read`, `chunked` | responses: their heads, bodies of known length and in chunks |
| `uri`, `method`, `headers`, `text`, `encoding`, `lines`, `buffer` | the parts they are made of |
| `conn`, `conn_blocking`, `conn_order`, `client_pool`, `conn_pool`, `http_client` | connections, pools of them, and clients |
| `http_server`, `ws_server`, `tick`, `tls`, `id_map` | servers that go round their connections |
| `ws_frame`, `ws_parser`, `ws_types`, `ws_stream` | WebSocket frames and messages |
| `ws_handshake`, `ws_client`, `ws_accept` | how a WebSocket is opened, on both sides |
| `*_laws` | what holds of several functions together |

Parsing of heads, addresses and frames is left to `httparse`, `http_req` and `embedded_websocket`;
`sha1` and `base64` compute the answer to the key of a WebSocket, and `rustls` decodes certificates
and keys. Each call into them stands in a small function whose contract says what is relied on.
