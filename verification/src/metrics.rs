pub mod llvm_lines;
