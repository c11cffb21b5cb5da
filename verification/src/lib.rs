//! Event-camera streams: the container, the file and wire formats that carry it, and the
//! integer-valued frames computed from it.

pub mod bytes;
pub mod chars;
pub mod chars_laws;
pub mod floats;
pub mod io;
pub mod mask;
pub mod model;
pub mod net;
pub mod net_laws;
pub mod places;
pub mod representation;
pub mod ros2;
pub mod ros2_laws;
pub mod simulate;
pub mod stream;
pub mod stream_laws;
pub mod track;
pub mod track_laws;
pub mod transform;

pub use stream::{Event, EventStream, EventStreamBuilder, RawEvent};
