//! Logic of the NexaCore desktop.
//!
//! The crate holds what the desktop decides and computes: the messages between its processes and
//! their encoding, the state of the shell (launcher, dock, notifications, session, settings,
//! clipboard, drag and drop, shortcuts), text, layout and painting on a canvas, accessibility, and
//! localisation. Every function states what it returns or changes, and Verus proves it.
//!
//! What the desktop has from elsewhere comes in as arguments: the compositor's blend operator,
//! shadows and rounded corners ([`paint::Effects`]), its design tokens ([`color::Palette`],
//! [`theme::Theme`]), and the traits that an application implements (an authenticator, a
//! synthesizer, a config store, a router and a tokenizer for AI actions).

pub mod a11y;
pub mod ai;
pub mod ai_actions;
pub mod canvas;
pub mod chat;
pub mod chrome;
pub mod clipboard;
pub mod codec;
pub mod color;
pub mod config;
pub mod cursor;
pub mod demo;
pub mod display_channel;
pub mod display_protocol;
pub mod display_settings;
pub mod dnd;
pub mod dock;
pub mod edit;
pub mod fs_service;
pub mod geometry;
pub mod i18n;
pub mod icon;
pub mod launcher;
pub mod layout;
pub mod lists;
pub mod material;
pub mod notification;
pub mod paint;
pub mod scale;
pub mod session;
pub mod settings;
pub mod shortcuts;
pub mod status_bar;
pub mod strings;
pub mod strmap;
pub mod text;
pub mod theme;
pub mod tokens;
pub mod widget;
pub mod wire;
