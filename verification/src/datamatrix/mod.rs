pub mod datamatrix_writer;

pub use datamatrix_writer::DataMatrixWriter;
