pub mod bitmap;
pub mod iter;

pub use bitmap::Bitmap;
pub use iter::BatchedBitmapIterator;
pub use iter::BitmapIterator;
