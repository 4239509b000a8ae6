//! Reverse-proxy configurations for a deployment behind nginx or Caddy.

use vstd::prelude::*;

use crate::text::{decimal, decimal_string, push_str};

verus! {

/// Where the reverse proxy finds the certificate and key, and the port it
/// serves HTTPS on.
pub struct TlsConfig {
    /// Path to the PEM-encoded certificate file.
    pub cert_path: String,
    /// Path to the PEM-encoded private key file.
    pub key_path: String,
    /// Port the reverse proxy should listen on for HTTPS traffic.
    pub port: u16,
}

pub open spec fn nginx_tls_a() -> Seq<char> {
    "# Redirect plain HTTP to HTTPS.\nserver {\n    listen 80;\n    listen [::]:80;\n    return 301 https://$host$request_uri;\n}\n\nserver {\n    listen "@
}

pub open spec fn nginx_tls_b() -> Seq<char> {
    " ssl http2;\n    listen [::]:"@
}

pub open spec fn nginx_tls_c() -> Seq<char> {
    " ssl http2;\n\n    ssl_certificate "@
}

pub open spec fn nginx_tls_d() -> Seq<char> {
    ";\n    ssl_certificate_key "@
}

pub open spec fn nginx_tls_e() -> Seq<char> {
    ";\n    ssl_protocols TLSv1.2 TLSv1.3;\n    ssl_prefer_server_ciphers off;\n    ssl_session_cache shared:SSL:10m;\n    ssl_session_timeout 1d;\n    ssl_session_tickets off;\n\n    add_header Strict-Transport-Security \"max-age=31536000; includeSubDomains; preload\" always;\n    add_header X-Content-Type-Options \"nosniff\" always;\n    add_header X-Frame-Options \"SAMEORIGIN\" always;\n    add_header Referrer-Policy \"strict-origin-when-cross-origin\" always;\n\n    # SSE / fn streaming / AI streaming need long read windows — default 60s\n    # chops live responses.\n    proxy_read_timeout 3600s;\n    proxy_send_timeout 3600s;\n\n    # Cap request bodies matching the server's 10 MB limit; nginx's default\n    # is 1 MB and will 413 longer uploads before they reach the app.\n    client_max_body_size 10M;\n\n    location / {\n        proxy_pass http://127.0.0.1:"@
}

pub open spec fn nginx_tls_f() -> Seq<char> {
    ";\n        proxy_http_version 1.1;\n        proxy_set_header Upgrade $http_upgrade;\n        proxy_set_header Connection \"upgrade\";\n        proxy_set_header Host $host;\n        proxy_set_header X-Real-IP $remote_addr;\n        proxy_set_header X-Forwarded-For $proxy_add_x_forwarded_for;\n        proxy_set_header X-Forwarded-Proto $scheme;\n        proxy_buffering off; # required for SSE chunked responses\n    }\n\n    location /ws {\n        proxy_pass http://127.0.0.1:"@
}

pub open spec fn nginx_tls_g() -> Seq<char> {
    ";\n        proxy_http_version 1.1;\n        proxy_set_header Upgrade $http_upgrade;\n        proxy_set_header Connection \"upgrade\";\n        proxy_read_timeout 3600s;\n        proxy_send_timeout 3600s;\n    }\n}"@
}

pub open spec fn nginx_plain_a() -> Seq<char> {
    "server {\n    listen 80;\n\n    # Dev-only plain-HTTP snippet. For production, pass a TlsConfig so the\n    # generator adds HSTS, TLS version pinning, and the HTTP -> HTTPS\n    # redirect.\n\n    proxy_read_timeout 3600s;\n    proxy_send_timeout 3600s;\n    client_max_body_size 10M;\n\n    location / {\n        proxy_pass http://127.0.0.1:"@
}

pub open spec fn nginx_plain_b() -> Seq<char> {
    ";\n        proxy_http_version 1.1;\n        proxy_set_header Upgrade $http_upgrade;\n        proxy_set_header Connection \"upgrade\";\n        proxy_set_header Host $host;\n        proxy_set_header X-Real-IP $remote_addr;\n        proxy_buffering off;\n    }\n}"@
}

pub open spec fn caddy_a() -> Seq<char> {
    ""@
}

pub open spec fn caddy_b() -> Seq<char> {
    " {\n    header {\n        Strict-Transport-Security \"max-age=31536000; includeSubDomains; preload\"\n        X-Content-Type-Options \"nosniff\"\n        X-Frame-Options \"SAMEORIGIN\"\n        Referrer-Policy \"strict-origin-when-cross-origin\"\n    }\n\n    # Match app body-size cap (10 MB).\n    request_body {\n        max_size 10MB\n    }\n\n    # Long-lived SSE / function streaming responses. Caddy's default\n    # write_timeout would terminate live streams after 30s.\n    servers {\n        timeouts {\n            read_body   30s\n            read_header 10s\n            write       1h\n            idle        2m\n        }\n    }\n\n    @websocket {\n        header Connection *Upgrade*\n        header Upgrade websocket\n    }\n    reverse_proxy @websocket localhost:"@
}

pub open spec fn caddy_c() -> Seq<char> {
    "\n\n    reverse_proxy localhost:"@
}

pub open spec fn caddy_d() -> Seq<char> {
    " {\n        flush_interval -1\n        transport http {\n            read_timeout 1h\n        }\n    }\n}"@
}

/// The nginx configuration for an app on `app_port`, its WebSocket on the
/// next port: with TLS, port 80 only redirects to HTTPS and the TLS server
/// pins the TLS versions and sends HSTS; without, a plain-HTTP server on
/// port 80.
pub open spec fn nginx_config(app_port: u16, tls: Option<(Seq<char>, Seq<char>, u16)>) -> Seq<char> {
    let port = decimal(app_port as nat);
    let ws_port = decimal((app_port + 1) as nat);
    match tls {
        Some((cert, key, ssl_port)) => nginx_tls_a() + decimal(ssl_port as nat) + nginx_tls_b()
            + decimal(ssl_port as nat) + nginx_tls_c() + cert + nginx_tls_d() + key + nginx_tls_e()
            + port + nginx_tls_f() + ws_port + nginx_tls_g(),
        None => nginx_plain_a() + port + nginx_plain_b(),
    }
}

pub open spec fn tls_view(tls: Option<&TlsConfig>) -> Option<(Seq<char>, Seq<char>, u16)> {
    match tls {
        Some(t) => Some((t.cert_path@, t.key_path@, t.port)),
        None => None,
    }
}

/// The Caddy configuration for `domain`, an app on `app_port` and its
/// WebSocket on the next port.
pub open spec fn caddy_config(domain: Seq<char>, app_port: u16) -> Seq<char> {
    caddy_a() + domain + caddy_b() + decimal((app_port + 1) as nat) + caddy_c() + decimal(
        app_port as nat,
    ) + caddy_d()
}

fn push_number(s: &mut String, n: u16)
    ensures
        final(s)@ == old(s)@ + decimal(n as nat),
{
    let d = decimal_string(n as u64);
    push_str(s, d.as_str());
}

/// Generate an nginx reverse proxy configuration.
pub fn generate_nginx_config(app_port: u16, tls: Option<&TlsConfig>) -> (c: String)
    requires
        tls is Some ==> app_port < u16::MAX,
    ensures
        c@ == nginx_config(app_port, tls_view(tls)),
{
    let mut c = String::new();
    match tls {
        Some(t) => {
            let ws_port: u16 = app_port + 1;
            push_str(&mut c, "# Redirect plain HTTP to HTTPS.\nserver {\n    listen 80;\n    listen [::]:80;\n    return 301 https://$host$request_uri;\n}\n\nserver {\n    listen ");
            push_number(&mut c, t.port);
            push_str(&mut c, " ssl http2;\n    listen [::]:");
            push_number(&mut c, t.port);
            push_str(&mut c, " ssl http2;\n\n    ssl_certificate ");
            push_str(&mut c, t.cert_path.as_str());
            push_str(&mut c, ";\n    ssl_certificate_key ");
            push_str(&mut c, t.key_path.as_str());
            push_str(&mut c, ";\n    ssl_protocols TLSv1.2 TLSv1.3;\n    ssl_prefer_server_ciphers off;\n    ssl_session_cache shared:SSL:10m;\n    ssl_session_timeout 1d;\n    ssl_session_tickets off;\n\n    add_header Strict-Transport-Security \"max-age=31536000; includeSubDomains; preload\" always;\n    add_header X-Content-Type-Options \"nosniff\" always;\n    add_header X-Frame-Options \"SAMEORIGIN\" always;\n    add_header Referrer-Policy \"strict-origin-when-cross-origin\" always;\n\n    # SSE / fn streaming / AI streaming need long read windows — default 60s\n    # chops live responses.\n    proxy_read_timeout 3600s;\n    proxy_send_timeout 3600s;\n\n    # Cap request bodies matching the server's 10 MB limit; nginx's default\n    # is 1 MB and will 413 longer uploads before they reach the app.\n    client_max_body_size 10M;\n\n    location / {\n        proxy_pass http://127.0.0.1:");
            push_number(&mut c, app_port);
            push_str(&mut c, ";\n        proxy_http_version 1.1;\n        proxy_set_header Upgrade $http_upgrade;\n        proxy_set_header Connection \"upgrade\";\n        proxy_set_header Host $host;\n        proxy_set_header X-Real-IP $remote_addr;\n        proxy_set_header X-Forwarded-For $proxy_add_x_forwarded_for;\n        proxy_set_header X-Forwarded-Proto $scheme;\n        proxy_buffering off; # required for SSE chunked responses\n    }\n\n    location /ws {\n        proxy_pass http://127.0.0.1:");
            push_number(&mut c, ws_port);
            push_str(&mut c, ";\n        proxy_http_version 1.1;\n        proxy_set_header Upgrade $http_upgrade;\n        proxy_set_header Connection \"upgrade\";\n        proxy_read_timeout 3600s;\n        proxy_send_timeout 3600s;\n    }\n}");
            proof {
                assert(c@ =~= nginx_config(app_port, tls_view(tls)));
            }
        },
        None => {
            push_str(&mut c, "server {\n    listen 80;\n\n    # Dev-only plain-HTTP snippet. For production, pass a TlsConfig so the\n    # generator adds HSTS, TLS version pinning, and the HTTP -> HTTPS\n    # redirect.\n\n    proxy_read_timeout 3600s;\n    proxy_send_timeout 3600s;\n    client_max_body_size 10M;\n\n    location / {\n        proxy_pass http://127.0.0.1:");
            push_number(&mut c, app_port);
            push_str(&mut c, ";\n        proxy_http_version 1.1;\n        proxy_set_header Upgrade $http_upgrade;\n        proxy_set_header Connection \"upgrade\";\n        proxy_set_header Host $host;\n        proxy_set_header X-Real-IP $remote_addr;\n        proxy_buffering off;\n    }\n}");
            proof {
                assert(c@ =~= nginx_config(app_port, tls_view(tls)));
            }
        },
    }
    c
}

/// Generate a Caddy reverse proxy configuration with automatic TLS.
pub fn generate_caddy_config(domain: &str, app_port: u16) -> (c: String)
    requires
        app_port < u16::MAX,
    ensures
        c@ == caddy_config(domain@, app_port),
{
    let ws_port: u16 = app_port + 1;
    let mut c = String::new();
    push_str(&mut c, "");
    push_str(&mut c, domain);
    push_str(&mut c, " {\n    header {\n        Strict-Transport-Security \"max-age=31536000; includeSubDomains; preload\"\n        X-Content-Type-Options \"nosniff\"\n        X-Frame-Options \"SAMEORIGIN\"\n        Referrer-Policy \"strict-origin-when-cross-origin\"\n    }\n\n    # Match app body-size cap (10 MB).\n    request_body {\n        max_size 10MB\n    }\n\n    # Long-lived SSE / function streaming responses. Caddy's default\n    # write_timeout would terminate live streams after 30s.\n    servers {\n        timeouts {\n            read_body   30s\n            read_header 10s\n            write       1h\n            idle        2m\n        }\n    }\n\n    @websocket {\n        header Connection *Upgrade*\n        header Upgrade websocket\n    }\n    reverse_proxy @websocket localhost:");
    push_number(&mut c, ws_port);
    push_str(&mut c, "\n\n    reverse_proxy localhost:");
    push_number(&mut c, app_port);
    push_str(&mut c, " {\n        flush_interval -1\n        transport http {\n            read_timeout 1h\n        }\n    }\n}");
    proof {
        assert(c@ =~= caddy_config(domain@, app_port));
    }
    c
}

/// Text `t` stands somewhere in text `s`.
pub open spec fn occurs_in(s: Seq<char>, t: Seq<char>) -> bool {
    exists|k: int| 0 <= k && k + t.len() <= s.len() && #[trigger] s.subrange(k, k + t.len()) == t
}

proof fn lemma_occurs_mid(a: Seq<char>, t: Seq<char>, r: Seq<char>)
    ensures
        occurs_in(a + t + r, t),
{
    let s = a + t + r;
    assert(s.subrange(a.len() as int, a.len() + t.len() as int) =~= t);
}

/// Where nginx sends traffic: the `location /` block proxies to the app's
/// port and, with TLS, the `location /ws` block to the next port, the
/// WebSocket's.
#[verifier::rlimit(40)]
pub proof fn law_nginx_routes_app_and_websocket_ports(
    app_port: u16,
    tls: Option<(Seq<char>, Seq<char>, u16)>,
)
    requires
        tls is Some ==> app_port < u16::MAX,
    ensures
        occurs_in(
            nginx_config(app_port, tls),
            "location / {\n        proxy_pass http://127.0.0.1:"@ + decimal(app_port as nat) + ";"@,
        ),
        tls is Some ==> occurs_in(
            nginx_config(app_port, tls),
            "location /ws {\n        proxy_pass http://127.0.0.1:"@ + decimal((app_port + 1) as nat) + ";"@,
        ),
{
    reveal_strlit("location / {\n        proxy_pass http://127.0.0.1:");
    reveal_strlit("location /ws {\n        proxy_pass http://127.0.0.1:");
    reveal_strlit(";");
    reveal_strlit(";\n    ssl_protocols TLSv1.2 TLSv1.3;\n    ssl_prefer_server_ciphers off;\n    ssl_session_cache shared:SSL:10m;\n    ssl_session_timeout 1d;\n    ssl_session_tickets off;\n\n    add_header Strict-Transport-Security \"max-age=31536000; includeSubDomains; preload\" always;\n    add_header X-Content-Type-Options \"nosniff\" always;\n    add_header X-Frame-Options \"SAMEORIGIN\" always;\n    add_header Referrer-Policy \"strict-origin-when-cross-origin\" always;\n\n    # SSE / fn streaming / AI streaming need long read windows — default 60s\n    # chops live responses.\n    proxy_read_timeout 3600s;\n    proxy_send_timeout 3600s;\n\n    # Cap request bodies matching the server's 10 MB limit; nginx's default\n    # is 1 MB and will 413 longer uploads before they reach the app.\n    client_max_body_size 10M;\n\n    location / {\n        proxy_pass http://127.0.0.1:");
    reveal_strlit(";\n        proxy_http_version 1.1;\n        proxy_set_header Upgrade $http_upgrade;\n        proxy_set_header Connection \"upgrade\";\n        proxy_set_header Host $host;\n        proxy_set_header X-Real-IP $remote_addr;\n        proxy_set_header X-Forwarded-For $proxy_add_x_forwarded_for;\n        proxy_set_header X-Forwarded-Proto $scheme;\n        proxy_buffering off; # required for SSE chunked responses\n    }\n\n    location /ws {\n        proxy_pass http://127.0.0.1:");
    reveal_strlit(";\n        proxy_http_version 1.1;\n        proxy_set_header Upgrade $http_upgrade;\n        proxy_set_header Connection \"upgrade\";\n        proxy_read_timeout 3600s;\n        proxy_send_timeout 3600s;\n    }\n}");
    reveal_strlit("server {\n    listen 80;\n\n    # Dev-only plain-HTTP snippet. For production, pass a TlsConfig so the\n    # generator adds HSTS, TLS version pinning, and the HTTP -> HTTPS\n    # redirect.\n\n    proxy_read_timeout 3600s;\n    proxy_send_timeout 3600s;\n    client_max_body_size 10M;\n\n    location / {\n        proxy_pass http://127.0.0.1:");
    reveal_strlit(";\n        proxy_http_version 1.1;\n        proxy_set_header Upgrade $http_upgrade;\n        proxy_set_header Connection \"upgrade\";\n        proxy_set_header Host $host;\n        proxy_set_header X-Real-IP $remote_addr;\n        proxy_buffering off;\n    }\n}");
    let l = "location / {\n        proxy_pass http://127.0.0.1:"@;
    let w = "location /ws {\n        proxy_pass http://127.0.0.1:"@;
    let semi = ";"@;
    let port = decimal(app_port as nat);
    let ws_port = decimal((app_port + 1) as nat);
    match tls {
        Some((cert, key, ssl_port)) => {
            let e = nginx_tls_e();
            let f = nginx_tls_f();
            let g = nginx_tls_g();
            let pre = nginx_tls_a() + decimal(ssl_port as nat) + nginx_tls_b() + decimal(
                ssl_port as nat,
            ) + nginx_tls_c() + cert + nginx_tls_d() + key;
            let e0 = e.take(e.len() - l.len());
            assert(e =~= e0 + l);
            let f0 = f.take(f.len() - w.len());
            assert(f =~= semi + f0.skip(1) + w);
            assert(g =~= semi + g.skip(1));
            let c = nginx_config(app_port, tls);
            assert(c =~= (pre + e0) + (l + port + semi) + (f0.skip(1) + w + ws_port + g));
            lemma_occurs_mid(pre + e0, l + port + semi, f0.skip(1) + w + ws_port + g);
            assert(c =~= (pre + e0 + l + port + semi + f0.skip(1)) + (w + ws_port + semi) + g.skip(
                1,
            ));
            lemma_occurs_mid(
                pre + e0 + l + port + semi + f0.skip(1),
                w + ws_port + semi,
                g.skip(1),
            );
        },
        None => {
            let a = nginx_plain_a();
            let b = nginx_plain_b();
            let a0 = a.take(a.len() - l.len());
            assert(a =~= a0 + l);
            assert(b =~= semi + b.skip(1));
            let c = nginx_config(app_port, tls);
            assert(c =~= a0 + (l + port + semi) + b.skip(1));
            lemma_occurs_mid(a0, l + port + semi, b.skip(1));
        },
    }
}

/// Where Caddy sends traffic: WebSocket upgrades to the port after the
/// app's, everything else to the app's port.
#[verifier::rlimit(40)]
pub proof fn law_caddy_routes_app_and_websocket_ports(domain: Seq<char>, app_port: u16)
    ensures
        occurs_in(
            caddy_config(domain, app_port),
            "reverse_proxy @websocket localhost:"@ + decimal((app_port + 1) as nat) + "\n"@,
        ),
        occurs_in(
            caddy_config(domain, app_port),
            "\n    reverse_proxy localhost:"@ + decimal(app_port as nat) + " {"@,
        ),
{
    reveal_strlit("reverse_proxy @websocket localhost:");
    reveal_strlit("\n    reverse_proxy localhost:");
    reveal_strlit("\n");
    reveal_strlit(" {");
    reveal_strlit(" {\n    header {\n        Strict-Transport-Security \"max-age=31536000; includeSubDomains; preload\"\n        X-Content-Type-Options \"nosniff\"\n        X-Frame-Options \"SAMEORIGIN\"\n        Referrer-Policy \"strict-origin-when-cross-origin\"\n    }\n\n    # Match app body-size cap (10 MB).\n    request_body {\n        max_size 10MB\n    }\n\n    # Long-lived SSE / function streaming responses. Caddy's default\n    # write_timeout would terminate live streams after 30s.\n    servers {\n        timeouts {\n            read_body   30s\n            read_header 10s\n            write       1h\n            idle        2m\n        }\n    }\n\n    @websocket {\n        header Connection *Upgrade*\n        header Upgrade websocket\n    }\n    reverse_proxy @websocket localhost:");
    reveal_strlit("\n\n    reverse_proxy localhost:");
    reveal_strlit(" {\n        flush_interval -1\n        transport http {\n            read_timeout 1h\n        }\n    }\n}");
    let x = "reverse_proxy @websocket localhost:"@;
    let y = "\n    reverse_proxy localhost:"@;
    let nl = "\n"@;
    let br = " {"@;
    let b = caddy_b();
    let c = caddy_c();
    let d = caddy_d();
    let port = decimal(app_port as nat);
    let ws_port = decimal((app_port + 1) as nat);
    let b0 = b.take(b.len() - x.len());
    assert(b =~= b0 + x);
    assert(c =~= nl + y);
    assert(d =~= br + d.skip(2));
    let head = caddy_a() + domain + b0;
    let cfg = caddy_config(domain, app_port);
    assert(cfg =~= head + (x + ws_port + nl) + (y + port + d));
    lemma_occurs_mid(head, x + ws_port + nl, y + port + d);
    assert(cfg =~= (head + x + ws_port + nl) + (y + port + br) + d.skip(2));
    lemma_occurs_mid(head + x + ws_port + nl, y + port + br, d.skip(2));
}

} // verus!
