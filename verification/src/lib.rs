//! The verified core of the dorobot-nexus training console.
//!
//! What the console reads and writes, and the decisions it makes, with their
//! contracts proved: the JSON records of the headless stream ([`json`],
//! [`cli`]), the scene and recording files ([`scene`]), checkpoint manifests
//! ([`ckpt`]), zealot's metric stream ([`zealot`]), the MuJoCo harness's
//! output ([`mujoco`]), the studio's workspace wiring ([`studio`]), the probe's
//! scrubber ([`probe`]) and the run and navigation labels ([`state`], [`ux`]).
//! Floating-point quantities cross this boundary as the text they are written
//! as; rendering and parsing floats is the caller's.
pub mod text;
pub mod json;
pub mod scene;
pub mod cli;
pub mod trainer;
pub mod env;
pub mod ckpt;
pub mod state;
pub mod mujoco;
pub mod studio;
pub mod zealot;
pub mod probe;
pub mod ux;
