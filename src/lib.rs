// A compiler and interpreter for the eight-instruction tape language.
//
// Source text is lexed into tokens (`lexer`), parsed into an instruction
// tree (`parser`, `ast`), rewritten by an optimizer pipeline (`optimizer`),
// and then either run by a tree-walking interpreter (`interpreter`) on the
// abstract machine (`machine`), or lowered into the code of a native
// program (`codegen`), whose prologue and runtime routines are given as
// instruction lists with their behaviour proved (`runtime`). The remaining modules state and prove what holds of
// these steps: bracket structure (`brackets`), optimizer normal forms
// (`normal_form`), semantic equivalence of optimized and unoptimized trees
// (`equivalence`), agreement of lowered code with the tree (`code_run`),
// and the text listings of tokens and trees (`render`).

pub mod ast;
pub mod brackets;
pub mod code_run;
pub mod codegen;
pub mod equivalence;
pub mod interpreter;
pub mod lexer;
pub mod machine;
pub mod normal_form;
pub mod optimizer;
pub mod parser;
pub mod render;
pub mod runtime;
