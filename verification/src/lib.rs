//! A minimal newsletter web service core: a health-check endpoint and a
//! subscription endpoint that validates `application/x-www-form-urlencoded`
//! request bodies.
//!
//! The HTTP transport itself (socket binding, routing, the worker pool) is
//! unverified glue that lives outside this library; everything a handler
//! decides — how a form body is parsed and when a subscription request is
//! accepted — is implemented and proved here.

pub mod form;
pub mod handler;
pub mod subscription;
