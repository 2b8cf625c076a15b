//! Graph theory algorithms over a small capability-based data model:
//! undirected graphs, digraphs, trees, bipartite graphs, labelings and
//! transportation networks.
pub mod peso;
pub mod vertice;
pub mod orden;
pub mod grafo_t;
pub mod arista_t;
pub mod arista;
pub mod diarista;
pub mod grafo;
pub mod digrafo;
pub mod arbol;
pub mod bipartido;
pub mod emparejamiento;
pub mod etiquetado;
pub mod flujo;
pub mod red_transporte;
pub mod flujo_maximo;
pub mod algoritmo;
pub mod camino_minimo;
pub mod sucesion;
pub mod leyes;

pub use peso::{NoPeso, PesoT};
pub use vertice::VerticeT;
pub use grafo_t::GrafoT;
pub use arista_t::AristaT;
pub use arista::Arista;
pub use diarista::Diarista;
pub use grafo::Grafo;
pub use digrafo::Digrafo;
pub use arbol::Arbol;
pub use bipartido::Bipartido;
pub use emparejamiento::Emparejamiento;
pub use etiquetado::{Etiqueta, Etiquetado};
pub use flujo::Flujo;
pub use red_transporte::{incrementar_flujo, Red};
pub use flujo_maximo::{encontrar_camino_aumento, maximizar_flujo};
pub use algoritmo::{arbol_anchura, arbol_peso_minimo, arbol_profundidad};
pub use camino_minimo::arbol_camino_minimo;
pub use sucesion::comprobar_sucesion;
