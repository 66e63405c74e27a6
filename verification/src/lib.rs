//! What `dshe` decides, computes and tells when it moves files between machines.
//!
//! A sender imports a file or folder ([`import`]), makes a ticket for it ([`ticket`]), announces it
//! on the local network ([`beacon`]), tells the user ([`send`], [`background`]) and keeps track of
//! the receivers that it serves ([`provide`]). A receiver has a ticket or picks a sender
//! ([`pick`]), fetches ([`receive`], [`download`]) and writes the files ([`export`]). The paths,
//! texts, numbers and addresses of both are in [`paths`], [`text`], [`digits`], [`sizes`] and
//! [`addr`].
//!
//! Input and output are left to the program around the library: it hands in what it read and does
//! what it is told. What the library has from other crates is in [`outside`].
pub mod addr;
pub mod args;
pub mod background;
pub mod beacon;
pub mod digits;
pub mod download;
pub mod export;
pub mod import;
pub mod keys;
pub mod options;
pub mod outside;
pub mod paths;
pub mod pick;
pub mod provide;
pub mod receive;
pub mod secret;
pub mod send;
pub mod sizes;
pub mod text;
pub mod ticket;
