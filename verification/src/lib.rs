//! Last.fm guidance for the playlist optimizer.
//!
//! A guidance provider tells the optimizer which local candidates resemble the
//! tracks of a route. This one draws on evidence that has been collected from
//! Last.fm beforehand: edges from a recording or an artist to a candidate of the
//! local library. [`provider`] takes the evidence in and scores candidates,
//! [`service`] answers requests, and [`laws`] states what holds of guidance as a
//! whole. [`outcomes`] and [`exchanges`] tell what is answered from the fields of
//! the evidence and of the requests alone.

pub mod artists;
pub mod binary64;
pub mod digest;
pub mod evidence;
pub mod exchanges;
pub mod laws;
pub mod names;
pub mod outcomes;
pub mod protocol;
pub mod provider;
pub mod relations;
pub mod service;
pub mod text;
