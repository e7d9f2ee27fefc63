pub mod ring_buffer;

pub use ring_buffer::RingBuffer;
pub use ring_buffer::RingBufferIter;
pub use ring_buffer::RingBufferIterMut;
