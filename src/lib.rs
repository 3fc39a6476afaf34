//! Driver for the DHT11 temperature and humidity sensor.
//!
//! The sensor answers a wake-up pulse with 40 bits sent over a single
//! open-drain line; each bit is told by comparing the length of a high phase
//! with the low phase before it. `frame` turns the five received bytes into
//! readings, `reader` holds the polling decisions as a state machine, and
//! `driver` runs that machine against a line; `scripted` is a line that plays
//! back recorded levels. `text` writes readings out and
//! `laws` holds the general facts proved of decoding and measuring.
pub mod driver;
pub mod frame;
pub mod laws;
pub mod reader;
pub mod scripted;
pub mod text;

pub use driver::{Dht11, Event, Line};
pub use frame::{checksum, decode, Error, Humidity, Temperature, FRAME_LEN};
pub use reader::{Reader, Step, PULSES, TIMEOUT};
pub use scripted::ScriptedLine;
